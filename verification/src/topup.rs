//! Topping up sessions that are below the minimum number of students.
use vstd::prelude::*;
use crate::schedule::{Schedule, SessionModel, too_few, has_class, class_index, roster, lemma_class_index};
use crate::student::{Student, StudentView, views, move_score_value};
use crate::seq_util::{contains_u16, ref_list_contains};
use crate::order::{sort_desc, seq_key, int_keys, positions, position_list, sort_by_key_desc, apply_permutation, lemma_sort_desc_elements, lemma_positions};
use crate::{MISSING_PREFERENCE, UNASSIGNED_CLASSS};
use crate::plan::{join, set_class, same_sessions, same_students, lemma_same_sessions, lemma_set_class_same, rosters_listed, is_listed, student_ids_distinct, no_marker_session, held_by_listed, agree, consistent, holdings_distinct, lemma_agree_move, lemma_listed_students, lemma_listed_join, lemma_listed_leave, plan_ok, lemma_plan_ok_kept, all_held, ScheduleError, remove_all, same_people, lemma_same_people_students, lemma_same_people_trans, lemma_same_people_permute, leave, permute, move_student, lemma_remove_all_len};

verus! {

/// The top-up pass looks at a session when one of its rosters is below the
/// minimum (every roster is, for a negative minimum).
pub open spec fn some_roster_below_min(periods: Seq<Seq<u32>>, min_students: i32) -> bool {
    exists|p: int| 0 <= p < periods.len() && too_few((#[trigger] periods[p]).len() as int, min_students)
}

/// The positions, among the first `n`, of sessions the top-up pass looks at.
pub open spec fn short_sessions(m: Seq<SessionModel>, n: int, min_students: i32) -> Seq<usize>
    decreases n,
{
    if n <= 0 {
        Seq::empty()
    } else {
        let s = short_sessions(m, n - 1, min_students);
        if some_roster_below_min(m[n - 1].1, min_students) {
            s.push((n - 1) as usize)
        } else {
            s
        }
    }
}

/// Each session keyed by its id.
pub open spec fn session_id_keys(m: Seq<SessionModel>) -> Seq<(int, int)> {
    Seq::new(m.len(), |e: int| (m[e].0 as int, 0int))
}

/// The sessions the top-up pass looks at, highest id first.
pub open spec fn topup_order(m: Seq<SessionModel>, min_students: i32) -> Seq<usize> {
    sort_desc(short_sessions(m, m.len() as int, min_students), seq_key(session_id_keys(m)))
}

/// The top-up pass looks at exactly the sessions with a roster below the
/// minimum.
pub proof fn lemma_topup_order_members(m: Seq<SessionModel>, min_students: i32)
    requires
        m.len() <= usize::MAX,
    ensures
        forall|e: int| 0 <= e < m.len() ==> (#[trigger] topup_order(m, min_students).contains(e as usize)
            <==> some_roster_below_min(m[e].1, min_students)),
{
    lemma_short_members(m, m.len() as int, min_students);
    lemma_sort_desc_elements(short_sessions(m, m.len() as int, min_students), seq_key(session_id_keys(m)));
}

proof fn lemma_short_members(m: Seq<SessionModel>, n: int, min_students: i32)
    requires
        0 <= n <= m.len(),
        m.len() <= usize::MAX,
    ensures
        forall|e: int| 0 <= e < m.len() ==> (#[trigger] short_sessions(m, n, min_students).contains(e as usize)
            <==> (e < n && some_roster_below_min(m[e].1, min_students))),
    decreases n,
{
    if n > 0 {
        lemma_short_members(m, n - 1, min_students);
        let t = short_sessions(m, n - 1, min_students);
        assert forall|e: int| 0 <= e < m.len() implies (#[trigger] short_sessions(m, n, min_students).contains(e as usize)
            <==> (e < n && some_roster_below_min(m[e].1, min_students))) by {
            if some_roster_below_min(m[n - 1].1, min_students) {
                assert(short_sessions(m, n, min_students) == t.push((n - 1) as usize));
                let tp = t.push((n - 1) as usize);
                if tp.contains(e as usize) && e != n - 1 {
                    let j = choose|j: int| 0 <= j < tp.len() && tp[j] == e as usize;
                    assert(j < t.len());
                    assert(t[j] == tp[j]);
                    assert(t.contains(e as usize));
                }
                if e == n - 1 {
                    assert(t.push((n - 1) as usize)[t.len() as int] == e as usize);
                }
                if t.contains(e as usize) {
                    let j = choose|j: int| 0 <= j < t.len() && t[j] == e as usize;
                    assert(t.push((n - 1) as usize)[j] == e as usize);
                }
            }
        }
    }
}

/// The size of the roster a student is in during period `p`.
pub open spec fn current_roster_len(m: Seq<SessionModel>, st: StudentView, p: int) -> int {
    m[class_index(m, st.classes[p])].1[p].len() as int
}

/// The move score of a student for session `e` in period `p` (see
/// `Student::move_score`).
pub open spec fn move_key(
    m: Seq<SessionModel>,
    st: StudentView,
    e: int,
    p: int,
    min_students: i32,
    max_students: i32,
    prohibited: Seq<&u16>,
) -> int {
    if st.grade <= 8 && ref_list_contains(prohibited, m[e].0) {
        -1000
    } else {
        move_score_value(st.preferences, st.classes[p], st.grade, m[e].0, current_roster_len(m, st, p) as i32, min_students, max_students)
    }
}

/// Every student's current roster in period `p` is small enough to score.
pub open spec fn scorable(m: Seq<SessionModel>, sv: Seq<StudentView>, p: int) -> bool {
    forall|j: int| 0 <= j < sv.len() ==> #[trigger] current_roster_len(m, sv[j], p) <= i32::MAX
}

/// The students keyed by (move score, id).
pub open spec fn move_keys(
    m: Seq<SessionModel>,
    sv: Seq<StudentView>,
    e: int,
    p: int,
    min_students: i32,
    max_students: i32,
    prohibited: Seq<&u16>,
) -> Seq<(int, int)> {
    Seq::new(sv.len(), |j: int| (move_key(m, sv[j], e, p, min_students, max_students, prohibited), sv[j].student_id as int))
}

/// The students ordered by move score, highest first; ties by id, highest first.
pub open spec fn move_order(
    m: Seq<SessionModel>,
    sv: Seq<StudentView>,
    e: int,
    p: int,
    min_students: i32,
    max_students: i32,
    prohibited: Seq<&u16>,
) -> Seq<StudentView> {
    permute(sv, sort_desc(positions(sv.len()), seq_key(move_keys(m, sv, e, p, min_students, max_students, prohibited))))
}

/// Takes students, from position `idx` on, into session `e` in period `p`
/// until it reaches the minimum: a student moves when they are in another
/// session that period whose roster is above the minimum and do not hold
/// session `e` in any period.
pub open spec fn take_from(
    m: Seq<SessionModel>,
    sv: Seq<StudentView>,
    e: int,
    p: int,
    min_students: i32,
    idx: int,
) -> Result<(Seq<SessionModel>, Seq<StudentView>), ScheduleError>
    decreases sv.len() - idx,
{
    if !(m[e].1[p].len() < min_students) {
        Ok((m, sv))
    } else if idx < 0 || idx >= sv.len() {
        Err(ScheduleError::NotEnoughStudents { class_id: m[e].0, period: p as usize })
    } else {
        let st = sv[idx];
        let cur = st.classes[p];
        let ce = class_index(m, cur);
        if cur != m[e].0 && m[ce].1[p].len() > min_students && !st.classes.contains(m[e].0) {
            take_from(join(leave(m, ce, p, st.student_id), e, p, st.student_id), set_class(sv, idx, p, m[e].0), e, p, min_students, idx + 1)
        } else {
            take_from(m, sv, e, p, min_students, idx + 1)
        }
    }
}

/// Tops up session `e` in period `p` when it is below the minimum: students
/// are ordered by move score and taken in that order.
pub open spec fn topup_step(
    plan: Result<(Seq<SessionModel>, Seq<StudentView>), ScheduleError>,
    e: int,
    p: int,
    min_students: i32,
    max_students: i32,
    prohibited: Seq<&u16>,
) -> Result<(Seq<SessionModel>, Seq<StudentView>), ScheduleError> {
    match plan {
        Err(err) => Err(err),
        Ok((m, sv)) => if !(m[e].1[p].len() < min_students) {
            Ok((m, sv))
        } else if !scorable(m, sv, p) {
            Err(ScheduleError::RosterTooLarge { class_id: m[e].0, period: p as usize })
        } else {
            take_from(m, move_order(m, sv, e, p, min_students, max_students, prohibited), e, p, min_students, 0)
        },
    }
}

/// The first `q` periods of session `e` topped up.
pub open spec fn topup_periods_upto(
    plan: Result<(Seq<SessionModel>, Seq<StudentView>), ScheduleError>,
    e: int,
    q: int,
    min_students: i32,
    max_students: i32,
    prohibited: Seq<&u16>,
) -> Result<(Seq<SessionModel>, Seq<StudentView>), ScheduleError>
    decreases q,
{
    if q <= 0 {
        plan
    } else {
        topup_step(topup_periods_upto(plan, e, q - 1, min_students, max_students, prohibited), e, q - 1, min_students, max_students, prohibited)
    }
}

/// The sessions at the first `k` positions of `order` topped up.
pub open spec fn topup_upto(
    m: Seq<SessionModel>,
    sv: Seq<StudentView>,
    order: Seq<usize>,
    k: int,
    min_students: i32,
    max_students: i32,
    prohibited: Seq<&u16>,
) -> Result<(Seq<SessionModel>, Seq<StudentView>), ScheduleError>
    decreases k,
{
    if k <= 0 {
        Ok((m, sv))
    } else {
        topup_periods_upto(topup_upto(m, sv, order, k - 1, min_students, max_students, prohibited), order[k - 1] as int,
            crate::NUM_PERIODS as int, min_students, max_students, prohibited)
    }
}

/// The top-up pass over the sessions it looks at, highest id first.
pub open spec fn topup(
    m: Seq<SessionModel>,
    sv: Seq<StudentView>,
    min_students: i32,
    max_students: i32,
    prohibited: Seq<&u16>,
) -> Result<(Seq<SessionModel>, Seq<StudentView>), ScheduleError> {
    let order = topup_order(m, min_students);
    topup_upto(m, sv, order, order.len() as int, min_students, max_students, prohibited)
}

/// Taking students ends, when it succeeds, with the session at or above the
/// minimum in that period.
pub proof fn lemma_take_reaches_min(
    m: Seq<SessionModel>,
    sv: Seq<StudentView>,
    e: int,
    p: int,
    min_students: i32,
    idx: int,
)
    ensures
        take_from(m, sv, e, p, min_students, idx) matches Ok((m2, sv2)) ==> m2[e].1[p].len() >= min_students,
    decreases sv.len() - idx,
{
    if m[e].1[p].len() < min_students && 0 <= idx < sv.len() {
        let st = sv[idx];
        let cur = st.classes[p];
        let ce = class_index(m, cur);
        if cur != m[e].0 && m[ce].1[p].len() > min_students && !st.classes.contains(m[e].0) {
            lemma_take_reaches_min(join(leave(m, ce, p, st.student_id), e, p, st.student_id), set_class(sv, idx, p, m[e].0),
                e, p, min_students, idx + 1);
        } else {
            lemma_take_reaches_min(m, sv, e, p, min_students, idx + 1);
        }
    }
}

/// A top-up step that succeeds leaves its session at or above the minimum
/// in that period.
pub proof fn lemma_topup_step_reaches_min(
    m: Seq<SessionModel>,
    sv: Seq<StudentView>,
    e: int,
    p: int,
    min_students: i32,
    max_students: i32,
    prohibited: Seq<&u16>,
)
    ensures
        topup_step(Ok((m, sv)), e, p, min_students, max_students, prohibited) matches Ok((m2, sv2))
            ==> m2[e].1[p].len() >= min_students,
{
    lemma_take_reaches_min(m, move_order(m, sv, e, p, min_students, max_students, prohibited), e, p, min_students, 0);
}

/// The state the top-up pass keeps: the plan invariant, and every student
/// holds a session in every period.
pub open spec fn topup_ok(m: Seq<SessionModel>, sv: Seq<StudentView>) -> bool {
    &&& plan_ok(m, sv)
    &&& all_held(m, sv)
}

proof fn lemma_topup_ok_kept_sessions(m: Seq<SessionModel>, sv: Seq<StudentView>, m2: Seq<SessionModel>, sv2: Seq<StudentView>)
    requires
        topup_ok(m, sv),
        same_sessions(m, m2),
        same_students(sv, sv2),
        rosters_listed(m2, sv2),
        consistent(m2, sv2),
        holdings_distinct(sv2),
        forall|i: int, p: int| 0 <= i < sv.len() && 0 <= p < crate::NUM_PERIODS ==> has_class(m, #[trigger] sv2[i].classes[p]),
    ensures
        topup_ok(m2, sv2),
{
    lemma_plan_ok_kept(m, sv, m2, sv2);
    lemma_same_sessions(m, m2);
    assert forall|i: int, p: int| 0 <= i < sv2.len() && 0 <= p < crate::NUM_PERIODS implies has_class(m2, #[trigger] sv2[i].classes[p]) by {
        assert(has_class(m, sv2[i].classes[p]));
    }
}

proof fn lemma_permute_ok(m: Seq<SessionModel>, sv: Seq<StudentView>, perm: Seq<usize>)
    requires
        topup_ok(m, sv),
        perm.len() == sv.len(),
        forall|k: int| 0 <= k < perm.len() ==> #[trigger] perm[k] < sv.len(),
        forall|y: usize| y < sv.len() ==> #[trigger] perm.contains(y),
        perm.no_duplicates(),
        sv.len() <= usize::MAX,
    ensures
        topup_ok(m, permute(sv, perm)),
        permute(sv, perm).len() == sv.len(),
{
    let sv2 = permute(sv, perm);
    assert forall|i: int, j: int| 0 <= i < sv2.len() && 0 <= j < sv2[i].preferences.len() implies
        (#[trigger] sv2[i].preferences[j] == MISSING_PREFERENCE || has_class(m, sv2[i].preferences[j])) by {
        assert(sv2[i] == sv[perm[i] as int]);
        assert(sv[perm[i] as int].preferences[j] == MISSING_PREFERENCE || has_class(m, sv[perm[i] as int].preferences[j]));
    }
    assert forall|i: int| 0 <= i < sv2.len() implies (#[trigger] sv2[i]).classes.len() == crate::NUM_PERIODS as int by {
        assert(sv2[i] == sv[perm[i] as int]);
    }
    assert forall|e: int, p: int, k: int|
        0 <= e < m.len() && 0 <= p < m[e].1.len() && 0 <= k < m[e].1[p].len() implies
            is_listed(sv2, #[trigger] m[e].1[p][k]) by {
        assert(is_listed(sv, m[e].1[p][k]));
        let i = choose|i: int| 0 <= i < sv.len() && sv[i].student_id == m[e].1[p][k];
        assert(perm.contains(i as usize));
        let j = choose|j: int| 0 <= j < perm.len() && perm[j] == i as usize;
        assert(sv2[j] == sv[perm[j] as int]);
        assert(perm[j] as int == i);
        assert(sv2[j].student_id == m[e].1[p][k]);
    }
    assert forall|i: int, p: int| 0 <= i < sv2.len() && 0 <= p < crate::NUM_PERIODS implies has_class(m, #[trigger] sv2[i].classes[p]) by {
        assert(sv2[i] == sv[perm[i] as int]);
    }
    assert forall|x: int, a: int, b: int| 0 <= x < sv2.len() && 0 <= a < crate::NUM_PERIODS && 0 <= b < crate::NUM_PERIODS && a != b
        && #[trigger] sv2[x].classes[a] != UNASSIGNED_CLASSS implies sv2[x].classes[a] != #[trigger] sv2[x].classes[b] by {
        assert(sv2[x] == sv[perm[x] as int]);
    }
    assert(student_ids_distinct(sv2)) by {
        assert forall|a: int, b: int| 0 <= a < sv2.len() && 0 <= b < sv2.len() && a != b implies
            #[trigger] sv2[a].student_id != #[trigger] sv2[b].student_id by {
            assert(sv2[a] == sv[perm[a] as int] && sv2[b] == sv[perm[b] as int]);
            assert(perm[a] != perm[b]);
        }
    }
    if student_ids_distinct(sv2) && no_marker_session(m) {
        assert(student_ids_distinct(sv)) by {
            assert forall|a: int, b: int| 0 <= a < sv.len() && 0 <= b < sv.len() && a != b implies
                #[trigger] sv[a].student_id != #[trigger] sv[b].student_id by {
                assert(perm.contains(a as usize));
                assert(perm.contains(b as usize));
                let ka = choose|ka: int| 0 <= ka < perm.len() && perm[ka] == a as usize;
                let kb = choose|kb: int| 0 <= kb < perm.len() && perm[kb] == b as usize;
                assert(sv2[ka] == sv[a] && sv2[kb] == sv[b]);
            }
        }
        assert(agree(m, sv));
        assert forall|x: int, q: int| 0 <= x < sv2.len() && 0 <= q < crate::NUM_PERIODS && #[trigger] sv2[x].classes[q] != UNASSIGNED_CLASSS
            implies has_class(m, sv2[x].classes[q]) && roster(m, sv2[x].classes[q], q).contains(sv2[x].student_id) by {
            assert(sv2[x] == sv[perm[x] as int]);
        }
        assert forall|e: int, q: int, k: int|
            0 <= e < m.len() && 0 <= q < m[e].1.len() && 0 <= k < m[e].1[q].len() implies
                held_by_listed(sv2, #[trigger] m[e].1[q][k], q, m[e].0) by {
            assert(held_by_listed(sv, m[e].1[q][k], q, m[e].0));
            let j = choose|j: int| 0 <= j < sv.len() && sv[j].student_id == m[e].1[q][k] && sv[j].classes[q] == m[e].0;
            assert(perm.contains(j as usize));
            let kj = choose|kj: int| 0 <= kj < perm.len() && perm[kj] == j as usize;
            assert(sv2[kj] == sv[j]);
        }
    }
}

/// The move keys of the students for topping up session `e` in period `p`,
/// or `None` when some roster is too large to score.
fn compute_move_keys(
    schedule: &Schedule,
    students: &Vec<Student>,
    e: usize,
    p: usize,
    min_students: i32,
    max_students: i32,
    prohibited: &[&u16],
) -> (r: Option<Vec<(i128, i128)>>)
    requires
        topup_ok(schedule@, views(students@)),
        e < schedule@.len(),
        p < crate::NUM_PERIODS,
        min_students >= 0,
        max_students >= -1,
    ensures
        match r {
            Some(keys) => scorable(schedule@, views(students@), p as int)
                && int_keys(keys@) == move_keys(schedule@, views(students@), e as int, p as int, min_students, max_students, prohibited@),
            None => !scorable(schedule@, views(students@), p as int),
        },
{
    let ghost m = schedule@;
    let ghost sv = views(students@);
    let c = schedule.entries[e].class_id;
    assert(m[e as int] == schedule.entries@[e as int]@);
    let mut keys: Vec<(i128, i128)> = Vec::new();
    let mut j: usize = 0;
    while j < students.len()
        invariant
            j <= students@.len(),
            m == schedule@,
            sv == views(students@),
            topup_ok(m, sv),
            e < m.len(),
            c == m[e as int].0,
            p < crate::NUM_PERIODS,
            min_students >= 0,
            max_students >= -1,
            keys@.len() == j,
            forall|q: int| 0 <= q < j ==> #[trigger] current_roster_len(m, sv[q], p as int) <= i32::MAX,
            int_keys(keys@) == move_keys(m, sv, e as int, p as int, min_students, max_students, prohibited@).take(j as int),
        decreases students@.len() - j,
    {
        let st = &students[j];
        assert(sv[j as int] == st@);
        let cur = st.classes[p];
        assert(has_class(m, sv[j as int].classes[p as int]));
        let ce = match schedule.find_class(cur) {
            Some(ce) => ce,
            None => {
                assert(false);
                0
            },
        };
        assert(m[ce as int] == schedule.entries@[ce as int]@);
        let len = schedule.entries[ce].periods[p].len();
        assert(len == current_roster_len(m, sv[j as int], p as int));
        if len > i32::MAX as usize {
            return None;
        }
        let score = st.move_score(c, p, len as i32, min_students, max_students, prohibited);
        let ghost before = keys@;
        keys.push((score as i128, st.student_id as i128));
        proof {
            let mk = move_keys(m, sv, e as int, p as int, min_students, max_students, prohibited@);
            assert(int_keys(keys@) =~= mk.take(j + 1)) by {
                assert forall|q: int| 0 <= q < j + 1 implies #[trigger] int_keys(keys@)[q] == mk.take(j + 1)[q] by {
                    if q < j {
                        assert(keys@[q] == before[q]);
                        assert(int_keys(before)[q] == mk.take(j as int)[q]);
                    }
                }
            }
        }
        j = j + 1;
    }
    proof {
        assert(move_keys(m, sv, e as int, p as int, min_students, max_students, prohibited@).take(students@.len() as int)
            =~= move_keys(m, sv, e as int, p as int, min_students, max_students, prohibited@));
    }
    Some(keys)
}

/// Every roster of `m1` with at least `min_students` students still has at
/// least that many in `m2`.
pub open spec fn kept_min(m1: Seq<SessionModel>, m2: Seq<SessionModel>, min_students: i32) -> bool {
    forall|x: int, q: int| 0 <= x < m1.len() && 0 <= q < m1[x].1.len() && #[trigger] m1[x].1[q].len() >= min_students
        ==> 0 <= x < m2.len() && 0 <= q < m2[x].1.len() && m2[x].1[q].len() >= min_students
}

/// Every roster of session `e` has at least `min_students` students.
pub open spec fn min_reached(m: Seq<SessionModel>, e: int, min_students: i32) -> bool {
    forall|q: int| 0 <= q < m[e].1.len() ==> (#[trigger] m[e].1[q]).len() >= min_students
}

/// Moves students, in their current order from position `idx` on, into
/// session `e` in period `p` until it reaches the minimum (see `take_from`).
#[verifier::rlimit(30)]
fn take_students(
    schedule: &mut Schedule,
    students: &mut Vec<Student>,
    e: usize,
    p: usize,
    min_students: i32,
) -> (r: Result<(), ScheduleError>)
    requires
        topup_ok(old(schedule)@, views(old(students)@)),
        e < old(schedule)@.len(),
        p < crate::NUM_PERIODS,
        min_students >= 0,
    ensures
        match r {
            Ok(()) => take_from(old(schedule)@, views(old(students)@), e as int, p as int, min_students, 0)
                == Ok::<(Seq<SessionModel>, Seq<StudentView>), ScheduleError>((final(schedule)@, views(final(students)@)))
                && topup_ok(final(schedule)@, views(final(students)@))
                && same_sessions(old(schedule)@, final(schedule)@)
                && same_students(views(old(students)@), views(final(students)@))
                && final(schedule)@[e as int].1[p as int].len() >= min_students
                && (no_marker_session(old(schedule)@) ==> kept_min(old(schedule)@, final(schedule)@, min_students)),
            Err(err) => take_from(old(schedule)@, views(old(students)@), e as int, p as int, min_students, 0)
                == Err::<(Seq<SessionModel>, Seq<StudentView>), ScheduleError>(err),
        },
{
    let ghost m1 = schedule@;
    let ghost s1 = views(students@);
    assert(schedule@[e as int] == schedule.entries@[e as int]@);
    let c = schedule.entries[e].class_id;
    let mut idx: usize = 0;
    loop
        invariant
            m1 == old(schedule)@,
            s1 == views(old(students)@),
            topup_ok(schedule@, views(students@)),
            same_sessions(m1, schedule@),
            same_students(s1, views(students@)),
            e < schedule@.len(),
            schedule@[e as int].0 == c,
            p < crate::NUM_PERIODS,
            min_students >= 0,
            idx <= students@.len(),
            students@.len() == s1.len(),
            take_from(m1, s1, e as int, p as int, min_students, 0)
                == take_from(schedule@, views(students@), e as int, p as int, min_students, idx as int),
            no_marker_session(m1) ==> kept_min(m1, schedule@, min_students),
        decreases students@.len() - idx,
    {
        let ghost m = schedule@;
        let ghost sv = views(students@);
        assert(m[e as int] == schedule.entries@[e as int]@);
        if schedule.entries[e].periods[p].len() >= min_students as usize {
            assert(take_from(m, sv, e as int, p as int, min_students, idx as int) == Ok::<(Seq<SessionModel>, Seq<StudentView>), ScheduleError>((m, sv)));
            return Ok(());
        }
        if idx >= students.len() {
            assert(take_from(m, sv, e as int, p as int, min_students, idx as int)
                == Err::<(Seq<SessionModel>, Seq<StudentView>), ScheduleError>(ScheduleError::NotEnoughStudents { class_id: c, period: p }));
            return Err(ScheduleError::NotEnoughStudents { class_id: c, period: p });
        }
        assert(sv[idx as int] == students@[idx as int]@);
        let cur = students[idx].classes[p];
        let sid = students[idx].student_id;
        assert(has_class(m, sv[idx as int].classes[p as int]));
        let ce = match schedule.find_class(cur) {
            Some(ce) => ce,
            None => {
                assert(false);
                0
            },
        };
        assert(m[ce as int] == schedule.entries@[ce as int]@);
        let holds = contains_u16(&students[idx].classes, c);
        if cur != c && schedule.entries[ce].periods[p].len() > min_students as usize && !holds {
            move_student(schedule, students, idx, ce, e, p);
            proof {
                let m2 = schedule@;
                let sv2 = views(students@);
                lemma_set_class_same(sv, idx as int, p as int, c);
                lemma_listed_leave(m, sv, ce as int, p as int, sid);
                lemma_listed_join(leave(m, ce as int, p as int, sid), sv, e as int, p as int, idx as int);
                lemma_listed_students(m2, sv, sv2);
                lemma_agree_move(m, sv, ce as int, e as int, p as int, idx as int);
                assert(same_sessions(m, m2));
                lemma_same_sessions(m, m2);
                assert forall|i: int, q: int| 0 <= i < sv.len() && 0 <= q < crate::NUM_PERIODS implies
                    has_class(m, #[trigger] sv2[i].classes[q]) by {
                    lemma_class_index(m, e as int);
                    if i != idx as int || q != p as int {
                        assert(sv2[i].classes[q] == sv[i].classes[q]);
                    }
                }
                lemma_topup_ok_kept_sessions(m, sv, m2, sv2);
                if no_marker_session(m1) {
                    assert(no_marker_session(m)) by {
                        assert forall|x: int| 0 <= x < m.len() implies (#[trigger] m[x]).0 != UNASSIGNED_CLASSS by {
                            assert(m1[x].0 == m[x].0);
                        }
                    }
                    assert(agree(m, sv));
                    assert(m[ce as int].1[p as int].no_duplicates());
                    lemma_remove_all_len(m[ce as int].1[p as int], sid);
                    assert forall|x: int, q: int| 0 <= x < m1.len() && 0 <= q < m1[x].1.len() && #[trigger] m1[x].1[q].len() >= min_students
                        implies 0 <= x < m2.len() && 0 <= q < m2[x].1.len() && m2[x].1[q].len() >= min_students by {
                        assert(m[x].1[q].len() >= min_students);
                        if x == ce as int && q == p as int {
                            assert(m2[x].1[q] == remove_all(m[ce as int].1[p as int], sid));
                        } else if x == e as int && q == p as int {
                            assert(m2[x].1[q] == m[x].1[q].push(sid));
                        } else {
                            assert(m2[x].1[q] == m[x].1[q]);
                        }
                    }
                }
            }
        }
        idx = idx + 1;
    }
}

/// Tops up session `e` in period `p` when it is below the minimum: the
/// students are reordered by move score, highest first, and taken in that
/// order (see `topup_step`).
fn top_up_period(
    schedule: &mut Schedule,
    students: &mut Vec<Student>,
    e: usize,
    p: usize,
    min_students: i32,
    max_students: i32,
    prohibited: &[&u16],
) -> (r: Result<(), ScheduleError>)
    requires
        topup_ok(old(schedule)@, views(old(students)@)),
        e < old(schedule)@.len(),
        p < crate::NUM_PERIODS,
        min_students >= 0,
        max_students >= -1,
    ensures
        match r {
            Ok(()) => topup_step(Ok((old(schedule)@, views(old(students)@))), e as int, p as int, min_students, max_students, prohibited@)
                == Ok::<(Seq<SessionModel>, Seq<StudentView>), ScheduleError>((final(schedule)@, views(final(students)@)))
                && topup_ok(final(schedule)@, views(final(students)@))
                && same_sessions(old(schedule)@, final(schedule)@)
                && same_people(views(old(students)@), views(final(students)@))
                && final(schedule)@[e as int].1[p as int].len() >= min_students
                && (no_marker_session(old(schedule)@) ==> kept_min(old(schedule)@, final(schedule)@, min_students)),
            Err(err) => topup_step(Ok((old(schedule)@, views(old(students)@))), e as int, p as int, min_students, max_students, prohibited@)
                == Err::<(Seq<SessionModel>, Seq<StudentView>), ScheduleError>(err),
        },
{
    let ghost m = schedule@;
    let ghost sv = views(students@);
    assert(m[e as int] == schedule.entries@[e as int]@);
    let c = schedule.entries[e].class_id;
    if schedule.entries[e].periods[p].len() >= min_students as usize {
        proof {
            lemma_same_people_students(sv, sv);
        }
        return Ok(());
    }
    let keys = match compute_move_keys(schedule, students, e, p, min_students, max_students, prohibited) {
        Some(keys) => keys,
        None => {
            return Err(ScheduleError::RosterTooLarge { class_id: c, period: p });
        },
    };
    let n = students.len();
    assert(keys@.len() == int_keys(keys@).len());
    let all = position_list(n);
    let order = sort_by_key_desc(&all, &keys);
    proof {
        lemma_positions(n as nat);
        lemma_sort_desc_elements(all@, seq_key(int_keys(keys@)));
        assert forall|k: int| 0 <= k < order@.len() implies #[trigger] order@[k] < students@.len() by {
            assert(order@.contains(order@[k]));
        }
        assert forall|y: usize| y < sv.len() implies #[trigger] order@.contains(y) by {
            assert(all@.contains(y));
        }
    }
    let mut taken: Vec<Student> = Vec::new();
    std::mem::swap(&mut taken, students);
    let sorted = apply_permutation(taken, &order);
    *students = sorted;
    proof {
        let mo = move_order(m, sv, e as int, p as int, min_students, max_students, prohibited@);
        assert(views(students@) =~= mo);
        lemma_permute_ok(m, sv, order@);
        assert(topup_step(Ok((m, sv)), e as int, p as int, min_students, max_students, prohibited@)
            == take_from(m, mo, e as int, p as int, min_students, 0));
        lemma_same_people_permute(sv, order@);
    }
    let ghost sv_sorted = views(students@);
    let res = take_students(schedule, students, e, p, min_students);
    proof {
        if res is Ok {
            lemma_same_people_students(sv_sorted, views(students@));
            lemma_same_people_trans(sv, sv_sorted, views(students@));
        }
    }
    res
}

proof fn lemma_topup_periods_error(
    plan: Result<(Seq<SessionModel>, Seq<StudentView>), ScheduleError>,
    e: int,
    q: int,
    q2: int,
    min_students: i32,
    max_students: i32,
    prohibited: Seq<&u16>,
    err: ScheduleError,
)
    requires
        0 <= q <= q2,
        topup_periods_upto(plan, e, q, min_students, max_students, prohibited) == Err::<(Seq<SessionModel>, Seq<StudentView>), ScheduleError>(err),
    ensures
        topup_periods_upto(plan, e, q2, min_students, max_students, prohibited) == Err::<(Seq<SessionModel>, Seq<StudentView>), ScheduleError>(err),
    decreases q2,
{
    if q2 > q {
        lemma_topup_periods_error(plan, e, q, q2 - 1, min_students, max_students, prohibited, err);
    }
}

proof fn lemma_topup_error_sticks(
    m: Seq<SessionModel>,
    sv: Seq<StudentView>,
    order: Seq<usize>,
    k: int,
    k2: int,
    min_students: i32,
    max_students: i32,
    prohibited: Seq<&u16>,
    err: ScheduleError,
)
    requires
        0 <= k <= k2,
        topup_upto(m, sv, order, k, min_students, max_students, prohibited) == Err::<(Seq<SessionModel>, Seq<StudentView>), ScheduleError>(err),
    ensures
        topup_upto(m, sv, order, k2, min_students, max_students, prohibited) == Err::<(Seq<SessionModel>, Seq<StudentView>), ScheduleError>(err),
    decreases k2,
{
    if k2 > k {
        lemma_topup_error_sticks(m, sv, order, k, k2 - 1, min_students, max_students, prohibited, err);
        let plan = topup_upto(m, sv, order, k2 - 1, min_students, max_students, prohibited);
        assert(topup_periods_upto(plan, order[k2 - 1] as int, 0, min_students, max_students, prohibited) == plan);
        lemma_topup_periods_error(plan, order[k2 - 1] as int, 0, crate::NUM_PERIODS as int, min_students, max_students, prohibited, err);
    }
}

/// Tops up each period of session `e` in turn (see `topup_periods_upto`).
fn top_up_session(
    schedule: &mut Schedule,
    students: &mut Vec<Student>,
    e: usize,
    min_students: i32,
    max_students: i32,
    prohibited: &[&u16],
) -> (r: Result<(), ScheduleError>)
    requires
        topup_ok(old(schedule)@, views(old(students)@)),
        e < old(schedule)@.len(),
        min_students >= 0,
        max_students >= -1,
    ensures
        match r {
            Ok(()) => topup_periods_upto(Ok((old(schedule)@, views(old(students)@))), e as int, crate::NUM_PERIODS as int,
                    min_students, max_students, prohibited@)
                == Ok::<(Seq<SessionModel>, Seq<StudentView>), ScheduleError>((final(schedule)@, views(final(students)@)))
                && topup_ok(final(schedule)@, views(final(students)@))
                && same_sessions(old(schedule)@, final(schedule)@)
                && same_people(views(old(students)@), views(final(students)@))
                && (no_marker_session(old(schedule)@) ==> kept_min(old(schedule)@, final(schedule)@, min_students)
                    && min_reached(final(schedule)@, e as int, min_students)),
            Err(err) => topup_periods_upto(Ok((old(schedule)@, views(old(students)@))), e as int, crate::NUM_PERIODS as int,
                    min_students, max_students, prohibited@)
                == Err::<(Seq<SessionModel>, Seq<StudentView>), ScheduleError>(err),
        },
{
    let ghost m0 = schedule@;
    let ghost s0 = views(students@);
    proof {
        lemma_same_people_students(s0, s0);
    }
    let mut p: usize = 0;
    while p < crate::NUM_PERIODS as usize
        invariant
            m0 == old(schedule)@,
            s0 == views(old(students)@),
            p <= crate::NUM_PERIODS,
            e < m0.len(),
            min_students >= 0,
            max_students >= -1,
            topup_ok(schedule@, views(students@)),
            same_sessions(m0, schedule@),
            same_people(s0, views(students@)),
            no_marker_session(m0) ==> kept_min(m0, schedule@, min_students)
                && forall|q: int| 0 <= q < p ==> (#[trigger] schedule@[e as int].1[q]).len() >= min_students,
            topup_periods_upto(Ok((m0, s0)), e as int, p as int, min_students, max_students, prohibited@)
                == Ok::<(Seq<SessionModel>, Seq<StudentView>), ScheduleError>((schedule@, views(students@))),
        decreases crate::NUM_PERIODS - p,
    {
        let ghost m = schedule@;
        let ghost svb = views(students@);
        match top_up_period(schedule, students, e, p, min_students, max_students, prohibited) {
            Ok(()) => {},
            Err(err) => {
                proof {
                    lemma_topup_periods_error(Ok((m0, s0)), e as int, p + 1, crate::NUM_PERIODS as int,
                        min_students, max_students, prohibited@, err);
                }
                return Err(err);
            },
        }
        proof {
            assert(same_sessions(m0, schedule@)) by {
                assert forall|x: int| 0 <= x < m0.len() implies (#[trigger] m0[x]).0 == schedule@[x].0 && m0[x].1.len() == schedule@[x].1.len() by {
                    assert(m[x].0 == schedule@[x].0);
                }
            }
            lemma_same_people_trans(s0, svb, views(students@));
            if no_marker_session(m0) {
                assert(no_marker_session(m)) by {
                    assert forall|x: int| 0 <= x < m.len() implies (#[trigger] m[x]).0 != UNASSIGNED_CLASSS by {
                        assert(m0[x].0 == m[x].0);
                    }
                }
                let mf = schedule@;
                assert(kept_min(m0, mf, min_students)) by {
                    assert forall|x: int, q: int| 0 <= x < m0.len() && 0 <= q < m0[x].1.len() && #[trigger] m0[x].1[q].len() >= min_students
                        implies 0 <= x < mf.len() && 0 <= q < mf[x].1.len() && mf[x].1[q].len() >= min_students by {
                        assert(m[x].1[q].len() >= min_students);
                    }
                }
                assert forall|q: int| 0 <= q < p + 1 implies (#[trigger] mf[e as int].1[q]).len() >= min_students by {
                    if q < p {
                        assert(m[e as int].1[q].len() >= min_students);
                    }
                }
            }
        }
        p = p + 1;
    }
    proof {
        if no_marker_session(m0) {
            assert forall|q: int| 0 <= q < schedule@[e as int].1.len() implies (#[trigger] schedule@[e as int].1[q]).len() >= min_students by {
                assert(schedule@[e as int].1.len() == m0[e as int].1.len());
                assert(m0[e as int].1.len() == crate::NUM_PERIODS);
            }
        }
    }
    Ok(())
}

/// The sessions with a roster below the minimum, by position.
fn find_short_sessions(schedule: &Schedule, min_students: i32) -> (r: Vec<usize>)
    requires
        min_students >= 0,
    ensures
        r@ == short_sessions(schedule@, schedule@.len() as int, min_students),
        forall|k: int| 0 <= k < r@.len() ==> #[trigger] r@[k] < schedule@.len(),
{
    let mut r: Vec<usize> = Vec::new();
    let mut e: usize = 0;
    while e < schedule.entries.len()
        invariant
            e <= schedule@.len(),
            min_students >= 0,
            r@ == short_sessions(schedule@, e as int, min_students),
            forall|k: int| 0 <= k < r@.len() ==> #[trigger] r@[k] < e,
        decreases schedule@.len() - e,
    {
        assert(schedule@[e as int] == schedule.entries@[e as int]@);
        let periods = &schedule.entries[e].periods;
        let mut below = false;
        let mut p: usize = 0;
        while p < periods.len()
            invariant
                p <= periods@.len(),
                min_students >= 0,
                below == exists|q: int| 0 <= q < p && too_few((#[trigger] periods@[q]@).len() as int, min_students),
            decreases periods@.len() - p,
        {
            if periods[p].len() < min_students as usize {
                below = true;
            }
            p = p + 1;
        }
        proof {
            let ps = schedule@[e as int].1;
            assert(ps == periods@.map_values(|r: Vec<u32>| r@));
            if below {
                let q = choose|q: int| 0 <= q < periods@.len() && too_few((#[trigger] periods@[q]@).len() as int, min_students);
                assert(ps[q] == periods@[q]@);
            }
            if some_roster_below_min(ps, min_students) {
                let q = choose|q: int| 0 <= q < ps.len() && too_few((#[trigger] ps[q]).len() as int, min_students);
                assert(ps[q] == periods@[q]@);
            }
        }
        if below {
            r.push(e);
        }
        e = e + 1;
    }
    r
}

/// Each session keyed by its id, by position.
fn session_keys(schedule: &Schedule) -> (r: Vec<(i128, i128)>)
    ensures
        int_keys(r@) == session_id_keys(schedule@),
{
    let mut r: Vec<(i128, i128)> = Vec::new();
    let mut e: usize = 0;
    while e < schedule.entries.len()
        invariant
            e <= schedule@.len(),
            r@.len() == e,
            int_keys(r@) == session_id_keys(schedule@).take(e as int),
        decreases schedule@.len() - e,
    {
        assert(schedule@[e as int] == schedule.entries@[e as int]@);
        let ghost before = r@;
        r.push((schedule.entries[e].class_id as i128, 0i128));
        assert(int_keys(r@) =~= session_id_keys(schedule@).take(e + 1)) by {
            assert forall|q: int| 0 <= q < e + 1 implies #[trigger] int_keys(r@)[q] == session_id_keys(schedule@).take(e + 1)[q] by {
                if q < e {
                    assert(r@[q] == before[q]);
                    assert(int_keys(before)[q] == session_id_keys(schedule@).take(e as int)[q]);
                }
            }
        }
        e = e + 1;
    }
    assert(session_id_keys(schedule@).take(schedule@.len() as int) =~= session_id_keys(schedule@));
    r
}

/// The top-up pass: every session with a roster below the minimum, the
/// highest id first, is topped up in each period that is below the minimum
/// (see `topup`). Rosters at or above the minimum stay there, so on success
/// every roster ends at or above the minimum.
pub fn top_up_sessions(
    schedule: &mut Schedule,
    students: &mut Vec<Student>,
    min_students: i32,
    max_students: i32,
    prohibited: &[&u16],
) -> (r: Result<(), ScheduleError>)
    requires
        topup_ok(old(schedule)@, views(old(students)@)),
        min_students >= 0,
        max_students >= -1,
    ensures
        match r {
            Ok(()) => topup(old(schedule)@, views(old(students)@), min_students, max_students, prohibited@)
                == Ok::<(Seq<SessionModel>, Seq<StudentView>), ScheduleError>((final(schedule)@, views(final(students)@)))
                && topup_ok(final(schedule)@, views(final(students)@))
                && same_sessions(old(schedule)@, final(schedule)@)
                && same_people(views(old(students)@), views(final(students)@))
                && (no_marker_session(old(schedule)@) ==> forall|e: int, p: int| 0 <= e < final(schedule)@.len()
                    && 0 <= p < final(schedule)@[e].1.len() ==> (#[trigger] final(schedule)@[e].1[p]).len() >= min_students),
            Err(err) => topup(old(schedule)@, views(old(students)@), min_students, max_students, prohibited@)
                == Err::<(Seq<SessionModel>, Seq<StudentView>), ScheduleError>(err),
        },
{
    let ghost m0 = schedule@;
    let ghost s0 = views(students@);
    proof {
        lemma_same_people_students(s0, s0);
    }
    let short = find_short_sessions(schedule, min_students);
    let keys = session_keys(schedule);
    assert(keys@.len() == int_keys(keys@).len());
    let order = sort_by_key_desc(&short, &keys);
    proof {
        lemma_sort_desc_elements(short@, seq_key(int_keys(keys@)));
        assert forall|k: int| 0 <= k < order@.len() implies #[trigger] order@[k] < m0.len() by {
            assert(order@.contains(order@[k]));
            let j = choose|j: int| 0 <= j < short@.len() && short@[j] == order@[k];
        }
        assert(order@ == topup_order(m0, min_students));
    }
    let mut k: usize = 0;
    while k < order.len()
        invariant
            m0 == old(schedule)@,
            s0 == views(old(students)@),
            k <= order@.len(),
            order@ == topup_order(m0, min_students),
            forall|j: int| 0 <= j < order@.len() ==> #[trigger] order@[j] < m0.len(),
            min_students >= 0,
            max_students >= -1,
            topup_ok(schedule@, views(students@)),
            same_sessions(m0, schedule@),
            same_people(s0, views(students@)),
            no_marker_session(m0) ==> kept_min(m0, schedule@, min_students)
                && forall|j: int| 0 <= j < k ==> #[trigger] min_reached(schedule@, order@[j] as int, min_students),
            topup_upto(m0, s0, order@, k as int, min_students, max_students, prohibited@)
                == Ok::<(Seq<SessionModel>, Seq<StudentView>), ScheduleError>((schedule@, views(students@))),
        decreases order@.len() - k,
    {
        let ghost m = schedule@;
        let ghost svb = views(students@);
        let e = order[k];
        match top_up_session(schedule, students, e, min_students, max_students, prohibited) {
            Ok(()) => {},
            Err(err) => {
                proof {
                    lemma_topup_error_sticks(m0, s0, order@, k + 1, order@.len() as int, min_students, max_students, prohibited@, err);
                }
                return Err(err);
            },
        }
        proof {
            assert(same_sessions(m0, schedule@)) by {
                assert forall|x: int| 0 <= x < m0.len() implies (#[trigger] m0[x]).0 == schedule@[x].0 && m0[x].1.len() == schedule@[x].1.len() by {
                    assert(m[x].0 == schedule@[x].0);
                }
            }
            lemma_same_people_trans(s0, svb, views(students@));
            if no_marker_session(m0) {
                assert(no_marker_session(m)) by {
                    assert forall|x: int| 0 <= x < m.len() implies (#[trigger] m[x]).0 != UNASSIGNED_CLASSS by {
                        assert(m0[x].0 == m[x].0);
                    }
                }
                let mf = schedule@;
                assert(kept_min(m0, mf, min_students)) by {
                    assert forall|x: int, q: int| 0 <= x < m0.len() && 0 <= q < m0[x].1.len() && #[trigger] m0[x].1[q].len() >= min_students
                        implies 0 <= x < mf.len() && 0 <= q < mf[x].1.len() && mf[x].1[q].len() >= min_students by {
                        assert(m[x].1[q].len() >= min_students);
                    }
                }
                assert forall|j: int| 0 <= j < k + 1 implies #[trigger] min_reached(mf, order@[j] as int, min_students) by {
                    if j < k {
                        let x = order@[j] as int;
                        assert(min_reached(m, x, min_students));
                        assert forall|q: int| 0 <= q < mf[x].1.len() implies (#[trigger] mf[x].1[q]).len() >= min_students by {
                            assert(m[x].1.len() == mf[x].1.len());
                            assert(m[x].1[q].len() >= min_students);
                        }
                    }
                }
            }
        }
        k = k + 1;
    }
    let count = schedule.entries.len();
    proof {
        if no_marker_session(m0) {
            let mf = schedule@;
            assert(mf.len() == count);
            assert(m0.len() == mf.len());
            lemma_topup_order_members(m0, min_students);
            assert forall|e: int, p: int| 0 <= e < mf.len() && 0 <= p < mf[e].1.len()
                implies (#[trigger] mf[e].1[p]).len() >= min_students by {
                assert(m0[e].1.len() == mf[e].1.len());
                if some_roster_below_min(m0[e].1, min_students) {
                    assert(order@.contains(e as usize));
                    let j = choose|j: int| 0 <= j < order@.len() && order@[j] == e as usize;
                    assert(min_reached(mf, order@[j] as int, min_students));
                } else {
                    assert(!too_few(m0[e].1[p].len() as int, min_students));
                    assert(m0[e].1[p].len() >= min_students);
                    assert(kept_min(m0, mf, min_students));
                }
            }
        }
    }
    Ok(())
}

} // verus!
