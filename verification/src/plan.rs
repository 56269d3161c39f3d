//! The state the scheduling passes work on (the rosters, and the sessions
//! the students hold), the changes the passes make to it, and the invariants
//! they keep.
use vstd::prelude::*;
use crate::schedule::{Schedule, SessionModel, ids_distinct, has_class, class_index, roster, lemma_class_index};
use crate::student::{Student, StudentView, views};
use crate::seq_util::ref_list_contains;
use crate::{MISSING_PREFERENCE, UNASSIGNED_CLASSS};

verus! {

/// Why the scheduling passes could not finish.
#[derive(PartialEq, Eq, Structural, Clone, Copy, Debug)]
pub enum ScheduleError {
    /// A student had an open period and no session they may take.
    NoOpenSession { student: usize, period: usize },
    /// The session chosen to fill a student's open period is full.
    SessionFull { student: usize, period: usize, class_id: u16 },
    /// A session stayed below the minimum after every student was considered.
    NotEnoughStudents { class_id: u16, period: usize },
    /// A roster grew too large for its size to be scored.
    RosterTooLarge { class_id: u16, period: usize },
    /// The finished schedule is not consistent (see `schedule_valid`).
    InvalidSchedule,
}

/// The rosters after student `s` joins session `e` in period `p`.
pub open spec fn join(m: Seq<SessionModel>, e: int, p: int, s: u32) -> Seq<SessionModel> {
    m.update(e, (m[e].0, m[e].1.update(p, m[e].1[p].push(s))))
}

/// The rosters after student `s` leaves session `e` in period `p`.
pub open spec fn leave(m: Seq<SessionModel>, e: int, p: int, s: u32) -> Seq<SessionModel> {
    m.update(e, (m[e].0, m[e].1.update(p, remove_all(m[e].1[p], s))))
}

/// `s` without any occurrence of `x`.
pub open spec fn remove_all(s: Seq<u32>, x: u32) -> Seq<u32>
    decreases s.len(),
{
    if s.len() == 0 {
        Seq::empty()
    } else {
        let r = remove_all(s.drop_last(), x);
        if s.last() == x {
            r
        } else {
            r.push(s.last())
        }
    }
}

/// The students after student `i` takes session `c` in period `p`.
pub open spec fn set_class(sv: Seq<StudentView>, i: int, p: int, c: u16) -> Seq<StudentView> {
    sv.update(i, StudentView { classes: sv[i].classes.update(p, c), ..sv[i] })
}

/// The students rearranged so that position `k` holds the one that was at
/// `perm[k]`.
pub open spec fn permute(sv: Seq<StudentView>, perm: Seq<usize>) -> Seq<StudentView> {
    perm.map_values(|j: usize| sv[j as int])
}

/// Two schedules list the same sessions in the same order, with the same
/// number of periods each.
pub open spec fn same_sessions(a: Seq<SessionModel>, b: Seq<SessionModel>) -> bool {
    &&& a.len() == b.len()
    &&& forall|e: int| 0 <= e < a.len() ==> (#[trigger] a[e]).0 == b[e].0 && a[e].1.len() == b[e].1.len()
}

/// Two lists of students differ at most in the sessions they hold.
pub open spec fn same_students(a: Seq<StudentView>, b: Seq<StudentView>) -> bool {
    &&& a.len() == b.len()
    &&& forall|i: int| 0 <= i < a.len() ==> {
        &&& (#[trigger] a[i]).student_id == b[i].student_id
        &&& a[i].grade == b[i].grade
        &&& a[i].preferences == b[i].preferences
        &&& a[i].classes.len() == b[i].classes.len()
        &&& a[i].timestamp == b[i].timestamp
        &&& a[i].first_name == b[i].first_name
        &&& a[i].last_name == b[i].last_name
        &&& a[i].homeroom == b[i].homeroom
        &&& a[i].first_period == b[i].first_period
    }
}

/// Two views of a student agree on everything but the sessions held.
pub open spec fn same_details(x: StudentView, y: StudentView) -> bool {
    &&& x.student_id == y.student_id
    &&& x.grade == y.grade
    &&& x.preferences == y.preferences
    &&& x.classes.len() == y.classes.len()
    &&& x.timestamp == y.timestamp
    &&& x.first_name == y.first_name
    &&& x.last_name == y.last_name
    &&& x.homeroom == y.homeroom
    &&& x.first_period == y.first_period
}

/// `perm` maps the positions `0..n` one to one onto themselves.
pub open spec fn is_permutation(perm: Seq<int>, n: nat) -> bool {
    &&& perm.len() == n
    &&& forall|k: int| 0 <= k < n ==> 0 <= #[trigger] perm[k] < n
    &&& forall|a: int, b: int| 0 <= a < n && 0 <= b < n && a != b ==> #[trigger] perm[a] != #[trigger] perm[b]
}

/// `b` holds the students of `a`, each once, possibly reordered, differing at
/// most in the sessions they hold.
pub open spec fn same_people(a: Seq<StudentView>, b: Seq<StudentView>) -> bool {
    &&& a.len() == b.len()
    &&& exists|perm: Seq<int>| is_permutation(perm, a.len())
        && forall|k: int| 0 <= k < b.len() ==> same_details(a[perm[k]], #[trigger] b[k])
}

/// Schedules with the same sessions agree on which sessions exist and where.
pub proof fn lemma_same_sessions(a: Seq<SessionModel>, b: Seq<SessionModel>)
    requires
        ids_distinct(a),
        same_sessions(a, b),
    ensures
        ids_distinct(b),
        forall|c: u16| has_class(a, c) <==> #[trigger] has_class(b, c),
        forall|c: u16| has_class(a, c) ==> #[trigger] class_index(b, c) == class_index(a, c),
{
    assert forall|x: int, y: int| 0 <= x < b.len() && 0 <= y < b.len() && x != y implies #[trigger] b[x].0 != #[trigger] b[y].0 by {
        assert(a[x].0 == b[x].0 && a[y].0 == b[y].0);
    }
    assert forall|c: u16| has_class(a, c) <==> #[trigger] has_class(b, c) by {
        if has_class(a, c) {
            let e = choose|e: int| 0 <= e < a.len() && a[e].0 == c;
            assert(b[e].0 == c);
        }
        if has_class(b, c) {
            let e = choose|e: int| 0 <= e < b.len() && b[e].0 == c;
            assert(a[e].0 == c);
        }
    }
    assert forall|c: u16| has_class(a, c) implies #[trigger] class_index(b, c) == class_index(a, c) by {
        let e = class_index(a, c);
        lemma_class_index(a, e);
        assert(b[e].0 == c);
        lemma_class_index(b, e);
    }
}

pub(crate) proof fn lemma_join_same(m: Seq<SessionModel>, e: int, p: int, s: u32)
    requires
        0 <= e < m.len(),
        0 <= p < m[e].1.len(),
    ensures
        same_sessions(m, join(m, e, p, s)),
{
}

pub(crate) proof fn lemma_set_class_same(sv: Seq<StudentView>, i: int, p: int, c: u16)
    requires
        0 <= i < sv.len(),
        0 <= p < sv[i].classes.len(),
    ensures
        same_students(sv, set_class(sv, i, p, c)),
{
}

/// Students changed only in their sessions are the same people.
pub proof fn lemma_same_people_students(a: Seq<StudentView>, b: Seq<StudentView>)
    requires
        same_students(a, b),
    ensures
        same_people(a, b),
{
    let perm = Seq::new(a.len(), |i: int| i);
    assert(is_permutation(perm, a.len()));
    assert(forall|k: int| 0 <= k < b.len() ==> same_details(a[perm[k]], #[trigger] b[k]));
}

/// Being the same people carries over through a chain of changes.
pub proof fn lemma_same_people_trans(a: Seq<StudentView>, b: Seq<StudentView>, c: Seq<StudentView>)
    requires
        same_people(a, b),
        same_people(b, c),
    ensures
        same_people(a, c),
{
    let p1 = choose|perm: Seq<int>| is_permutation(perm, a.len())
        && forall|k: int| 0 <= k < b.len() ==> same_details(a[perm[k]], #[trigger] b[k]);
    let p2 = choose|perm: Seq<int>| is_permutation(perm, b.len())
        && forall|k: int| 0 <= k < c.len() ==> same_details(b[perm[k]], #[trigger] c[k]);
    let p3 = Seq::new(a.len(), |k: int| p1[p2[k]]);
    assert forall|k: int| 0 <= k < a.len() implies 0 <= #[trigger] p3[k] < a.len() by {
        assert(0 <= p2[k] < b.len());
    }
    assert forall|x: int, y: int| 0 <= x < a.len() && 0 <= y < a.len() && x != y implies #[trigger] p3[x] != #[trigger] p3[y] by {
        assert(p2[x] != p2[y]);
        assert(0 <= p2[x] < a.len() && 0 <= p2[y] < a.len());
    }
    assert forall|k: int| 0 <= k < c.len() implies same_details(a[p3[k]], #[trigger] c[k]) by {
        assert(same_details(b[p2[k]], c[k]));
        assert(0 <= p2[k] < b.len());
        assert(same_details(a[p1[p2[k]]], b[p2[k]]));
    }
    assert(is_permutation(p3, a.len()));
}

/// Rearranging the students keeps the same people.
pub proof fn lemma_same_people_permute(sv: Seq<StudentView>, perm: Seq<usize>)
    requires
        perm.len() == sv.len(),
        perm.no_duplicates(),
        forall|k: int| 0 <= k < perm.len() ==> #[trigger] perm[k] < sv.len(),
    ensures
        same_people(sv, permute(sv, perm)),
{
    let sv2 = permute(sv, perm);
    let p = Seq::new(sv.len(), |k: int| perm[k] as int);
    assert forall|x: int, y: int| 0 <= x < sv.len() && 0 <= y < sv.len() && x != y implies #[trigger] p[x] != #[trigger] p[y] by {
        assert(perm[x] != perm[y]);
    }
    assert forall|k: int| 0 <= k < sv.len() implies 0 <= #[trigger] p[k] < sv.len() by {
        assert(perm[k] < sv.len());
    }
    assert forall|k: int| 0 <= k < sv2.len() implies same_details(sv[p[k]], #[trigger] sv2[k]) by {
        assert(sv2[k] == sv[perm[k] as int]);
    }
    assert(is_permutation(p, sv.len()));
}

/// Adds student `s` to the roster of session `e` in period `p`.
pub(crate) fn add_to_roster(schedule: &mut Schedule, e: usize, p: usize, s: u32)
    requires
        e < old(schedule)@.len(),
        p < old(schedule)@[e as int].1.len(),
    ensures
        final(schedule)@ == join(old(schedule)@, e as int, p as int, s),
{
    let ghost m0 = schedule@;
    assert(schedule.entries@[e as int]@ == m0[e as int]);
    schedule.entries[e].periods[p].push(s);
    assert(schedule@ =~= join(m0, e as int, p as int, s)) by {
        assert forall|x: int| 0 <= x < schedule@.len() implies #[trigger] schedule@[x] == join(m0, e as int, p as int, s)[x] by {
            if x == e as int {
                assert(schedule@[x].1 =~= join(m0, e as int, p as int, s)[x].1);
            }
        }
    }
}

/// Takes student `s` out of the roster of session `e` in period `p`.
fn remove_from_roster(schedule: &mut Schedule, e: usize, p: usize, s: u32)
    requires
        e < old(schedule)@.len(),
        p < old(schedule)@[e as int].1.len(),
    ensures
        final(schedule)@ == leave(old(schedule)@, e as int, p as int, s),
{
    let ghost m0 = schedule@;
    assert(schedule.entries@[e as int]@ == m0[e as int]);
    let ghost r0 = m0[e as int].1[p as int];
    let mut kept: Vec<u32> = Vec::new();
    let mut k: usize = 0;
    while k < schedule.entries[e].periods[p].len()
        invariant
            k <= r0.len(),
            e < schedule.entries@.len(),
            schedule@ == m0,
            schedule.entries@[e as int]@ == m0[e as int],
            p < m0[e as int].1.len(),
            schedule.entries@[e as int].periods@[p as int]@ == r0,
            kept@ == remove_all(r0.take(k as int), s),
        decreases r0.len() - k,
    {
        let x = schedule.entries[e].periods[p][k];
        assert(r0.take(k + 1).drop_last() == r0.take(k as int));
        assert(r0.take(k + 1).last() == x);
        if x != s {
            kept.push(x);
        }
        k = k + 1;
    }
    assert(r0.take(r0.len() as int) == r0);
    schedule.entries[e].periods[p] = kept;
    assert(schedule@ =~= leave(m0, e as int, p as int, s)) by {
        assert forall|x: int| 0 <= x < schedule@.len() implies #[trigger] schedule@[x] == leave(m0, e as int, p as int, s)[x] by {
            if x == e as int {
                assert(schedule@[x].1 =~= leave(m0, e as int, p as int, s)[x].1);
            }
        }
    }
}

/// Gives student `i` session `c` in period `p`.
pub(crate) fn set_student_class(students: &mut Vec<Student>, i: usize, p: usize, c: u16)
    requires
        i < old(students)@.len(),
        p < old(students)@[i as int].classes@.len(),
    ensures
        views(final(students)@) == set_class(views(old(students)@), i as int, p as int, c),
{
    let ghost v0 = views(students@);
    students[i].classes[p] = c;
    assert(views(students@) =~= set_class(v0, i as int, p as int, c));
}

/// Student `i` moves from session `ce` to session `e` in period `p`.
pub(crate) fn move_student(schedule: &mut Schedule, students: &mut Vec<Student>, i: usize, ce: usize, e: usize, p: usize)
    requires
        i < old(students)@.len(),
        p < old(students)@[i as int].classes@.len(),
        ce < old(schedule)@.len(),
        e < old(schedule)@.len(),
        p < old(schedule)@[ce as int].1.len(),
        p < old(schedule)@[e as int].1.len(),
    ensures
        final(schedule)@ == join(leave(old(schedule)@, ce as int, p as int, old(students)@[i as int].student_id),
            e as int, p as int, old(students)@[i as int].student_id),
        views(final(students)@) == set_class(views(old(students)@), i as int, p as int, old(schedule)@[e as int].0),
{
    let sid = students[i].student_id;
    let c = schedule.entries[e].class_id;
    assert(schedule@[e as int] == schedule.entries@[e as int]@);
    remove_from_roster(schedule, ce, p, sid);
    add_to_roster(schedule, e, p, sid);
    set_student_class(students, i, p, c);
}

/// A roster of `len` students has room below the maximum (negative: unlimited).
pub open spec fn has_room(len: int, max_students: i32) -> bool {
    max_students < 0 || len < max_students
}

/// A middle schooler (grade 8 or lower) may not take a prohibited session.
pub open spec fn allowed(grade: u8, c: u16, prohibited: Seq<&u16>) -> bool {
    !(grade <= 8 && ref_list_contains(prohibited, c))
}

/// Every preference of every student is empty or names a session.
pub open spec fn preferences_scheduled(m: Seq<SessionModel>, sv: Seq<StudentView>) -> bool {
    forall|i: int, j: int| 0 <= i < sv.len() && 0 <= j < sv[i].preferences.len() ==>
        (#[trigger] sv[i].preferences[j] == MISSING_PREFERENCE || has_class(m, sv[i].preferences[j]))
}

/// Every session has `n` periods, and every student a slot for each.
pub open spec fn shaped(m: Seq<SessionModel>, sv: Seq<StudentView>, n: int) -> bool {
    &&& forall|e: int| 0 <= e < m.len() ==> (#[trigger] m[e]).1.len() == n
    &&& forall|i: int| 0 <= i < sv.len() ==> (#[trigger] sv[i]).classes.len() == n
}

/// Every student in a roster is one of the listed students.
pub open spec fn rosters_listed(m: Seq<SessionModel>, sv: Seq<StudentView>) -> bool {
    forall|e: int, p: int, k: int|
        0 <= e < m.len() && 0 <= p < m[e].1.len() && 0 <= k < m[e].1[p].len() ==>
            is_listed(sv, #[trigger] m[e].1[p][k])
}

/// Some listed student has id `s`.
pub open spec fn is_listed(sv: Seq<StudentView>, s: u32) -> bool {
    exists|i: int| 0 <= i < sv.len() && sv[i].student_id == s
}

/// No two listed students share an id.
pub open spec fn student_ids_distinct(sv: Seq<StudentView>) -> bool {
    forall|a: int, b: int| 0 <= a < sv.len() && 0 <= b < sv.len() && a != b ==> #[trigger] sv[a].student_id != #[trigger] sv[b].student_id
}

/// No session has the id that marks an open period.
pub open spec fn no_marker_session(m: Seq<SessionModel>) -> bool {
    forall|e: int| 0 <= e < m.len() ==> (#[trigger] m[e]).0 != UNASSIGNED_CLASSS
}

/// Some listed student with id `s` holds session `c` in period `p`.
pub open spec fn held_by_listed(sv: Seq<StudentView>, s: u32, p: int, c: u16) -> bool {
    exists|i: int| 0 <= i < sv.len() && sv[i].student_id == s && sv[i].classes[p] == c
}

/// Rosters and holdings agree: a student who holds a session in a period is
/// in its roster for that period; everyone in a roster holds that session in
/// that period; and no roster lists a student twice.
pub open spec fn agree(m: Seq<SessionModel>, sv: Seq<StudentView>) -> bool {
    &&& forall|i: int, p: int| 0 <= i < sv.len() && 0 <= p < crate::NUM_PERIODS && #[trigger] sv[i].classes[p] != UNASSIGNED_CLASSS
        ==> has_class(m, sv[i].classes[p]) && roster(m, sv[i].classes[p], p).contains(sv[i].student_id)
    &&& forall|e: int, p: int, k: int|
        0 <= e < m.len() && 0 <= p < m[e].1.len() && 0 <= k < m[e].1[p].len() ==>
            held_by_listed(sv, #[trigger] m[e].1[p][k], p, m[e].0)
    &&& forall|e: int, p: int| 0 <= e < m.len() && 0 <= p < m[e].1.len() ==> (#[trigger] m[e].1[p]).no_duplicates()
}

/// With distinct student ids and no session using the open-period marker as
/// its id, rosters and holdings agree.
pub open spec fn consistent(m: Seq<SessionModel>, sv: Seq<StudentView>) -> bool {
    student_ids_distinct(sv) && no_marker_session(m) ==> agree(m, sv)
}

/// No student holds one session in two periods.
pub open spec fn holdings_distinct(sv: Seq<StudentView>) -> bool {
    forall|i: int, p: int, q: int| 0 <= i < sv.len() && 0 <= p < crate::NUM_PERIODS && 0 <= q < crate::NUM_PERIODS && p != q
        && #[trigger] sv[i].classes[p] != UNASSIGNED_CLASSS ==> sv[i].classes[p] != #[trigger] sv[i].classes[q]
}

/// The invariant the passes keep: distinct session ids; the shape; every
/// preference empty or naming a session; rosters listing only listed
/// students; rosters agreeing with holdings (see `consistent`); no session
/// held twice by a student; distinct student ids.
pub open spec fn plan_ok(m: Seq<SessionModel>, sv: Seq<StudentView>) -> bool {
    &&& ids_distinct(m)
    &&& shaped(m, sv, crate::NUM_PERIODS as int)
    &&& preferences_scheduled(m, sv)
    &&& rosters_listed(m, sv)
    &&& consistent(m, sv)
    &&& holdings_distinct(sv)
    &&& student_ids_distinct(sv)
}

/// In each of the first `NUM_PERIODS` periods, every student holds nothing
/// or a session of the schedule.
pub open spec fn holdings_known(m: Seq<SessionModel>, sv: Seq<StudentView>) -> bool {
    forall|i: int, p: int| 0 <= i < sv.len() && 0 <= p < crate::NUM_PERIODS ==>
        (#[trigger] sv[i].classes[p] == UNASSIGNED_CLASSS || has_class(m, sv[i].classes[p]))
}

/// In each of the first `NUM_PERIODS` periods, every student holds a session
/// of the schedule.
pub open spec fn all_held(m: Seq<SessionModel>, sv: Seq<StudentView>) -> bool {
    forall|i: int, p: int| 0 <= i < sv.len() && 0 <= p < crate::NUM_PERIODS ==> has_class(m, #[trigger] sv[i].classes[p])
}

/// Every session a student holds is one of their preferences.
pub open spec fn holds_preferred(sv: Seq<StudentView>) -> bool {
    forall|i: int, p: int| 0 <= i < sv.len() && 0 <= p < crate::NUM_PERIODS && #[trigger] sv[i].classes[p] != UNASSIGNED_CLASSS
        ==> sv[i].preferences.contains(sv[i].classes[p])
}

/// Every roster has at most `max_students` students (negative: unlimited),
/// and no middle schooler holds a session prohibited to them.
pub open spec fn within_limits(m: Seq<SessionModel>, sv: Seq<StudentView>, max_students: i32, prohibited: Seq<&u16>) -> bool {
    &&& forall|e: int, p: int| 0 <= e < m.len() && 0 <= p < m[e].1.len() ==>
        max_students < 0 || (#[trigger] m[e].1[p]).len() <= max_students
    &&& forall|i: int, p: int| 0 <= i < sv.len() && 0 <= p < crate::NUM_PERIODS && #[trigger] sv[i].classes[p] != UNASSIGNED_CLASSS
        ==> allowed(sv[i].grade, sv[i].classes[p], prohibited)
}

/// What `remove_all` keeps.
pub proof fn lemma_remove_all(s: Seq<u32>, x: u32)
    ensures
        forall|y: u32| #[trigger] remove_all(s, x).contains(y) <==> (s.contains(y) && y != x),
        s.no_duplicates() ==> remove_all(s, x).no_duplicates(),
    decreases s.len(),
{
    if s.len() > 0 {
        let t = s.drop_last();
        lemma_remove_all(t, x);
        let r = remove_all(t, x);
        assert forall|y: u32| s.contains(y) <==> (t.contains(y) || y == s.last()) by {
            if s.contains(y) {
                let i = choose|i: int| 0 <= i < s.len() && s[i] == y;
                if i < s.len() - 1 {
                    assert(t[i] == y);
                }
            }
            if t.contains(y) {
                let i = choose|i: int| 0 <= i < t.len() && t[i] == y;
                assert(s[i] == y);
            }
            if y == s.last() {
                assert(s[s.len() - 1] == y);
            }
        }
        if s.last() != x {
            let r2 = r.push(s.last());
            assert(remove_all(s, x) == r2);
            assert forall|y: u32| #[trigger] r2.contains(y) <==> (r.contains(y) || y == s.last()) by {
                if r2.contains(y) {
                    let i = choose|i: int| 0 <= i < r2.len() && r2[i] == y;
                    if i < r.len() {
                        assert(r[i] == y);
                    }
                }
                if r.contains(y) {
                    let i = choose|i: int| 0 <= i < r.len() && r[i] == y;
                    assert(r2[i] == y);
                }
                if y == s.last() {
                    assert(r2[r.len() as int] == y);
                }
            }
            if s.no_duplicates() {
                assert(t.no_duplicates()) by {
                    assert forall|a: int, b: int| 0 <= a < t.len() && 0 <= b < t.len() && a != b implies t[a] != t[b] by {
                        assert(s[a] == t[a] && s[b] == t[b]);
                    }
                }
                assert(!t.contains(s.last())) by {
                    if t.contains(s.last()) {
                        let i = choose|i: int| 0 <= i < t.len() && t[i] == s.last();
                        assert(s[i] == s[s.len() - 1]);
                    }
                }
                assert forall|a: int, b: int| 0 <= a < r2.len() && 0 <= b < r2.len() && a != b implies r2[a] != r2[b] by {
                    if a == r.len() {
                        assert(r.contains(r2[b]));
                    } else if b == r.len() {
                        assert(r.contains(r2[a]));
                    }
                }
            }
        } else {
            if s.no_duplicates() {
                assert(t.no_duplicates()) by {
                    assert forall|a: int, b: int| 0 <= a < t.len() && 0 <= b < t.len() && a != b implies t[a] != t[b] by {
                        assert(s[a] == t[a] && s[b] == t[b]);
                    }
                }
            }
        }
    }
}

proof fn lemma_remove_all_subset(s: Seq<u32>, x: u32)
    ensures
        forall|k: int| 0 <= k < remove_all(s, x).len() ==> s.contains(#[trigger] remove_all(s, x)[k]),
    decreases s.len(),
{
    if s.len() > 0 {
        let t = s.drop_last();
        lemma_remove_all_subset(t, x);
        let r = remove_all(t, x);
        assert forall|k: int| 0 <= k < remove_all(s, x).len() implies s.contains(#[trigger] remove_all(s, x)[k]) by {
            if k < r.len() {
                assert(remove_all(s, x)[k] == r[k]);
                assert(t.contains(r[k]));
                let j = choose|j: int| 0 <= j < t.len() && t[j] == r[k];
                assert(s[j] == t[j]);
            } else {
                assert(remove_all(s, x)[k] == s.last());
                assert(s[s.len() - 1] == s.last());
            }
        }
    }
}

proof fn lemma_remove_all_absent(s: Seq<u32>, x: u32)
    requires
        !s.contains(x),
    ensures
        remove_all(s, x) == s,
    decreases s.len(),
{
    if s.len() > 0 {
        let t = s.drop_last();
        assert(!t.contains(x)) by {
            if t.contains(x) {
                let i = choose|i: int| 0 <= i < t.len() && t[i] == x;
                assert(s[i] == x);
            }
        }
        lemma_remove_all_absent(t, x);
        assert(s.last() != x) by {
            assert(s[s.len() - 1] == s.last());
        }
        assert(t.push(s.last()) =~= s);
    }
}

/// Without repeats, taking a student out removes at most one entry.
pub(crate) proof fn lemma_remove_all_len(s: Seq<u32>, x: u32)
    requires
        s.no_duplicates(),
    ensures
        remove_all(s, x).len() >= s.len() - 1,
        remove_all(s, x).len() <= s.len(),
    decreases s.len(),
{
    if s.len() > 0 {
        let t = s.drop_last();
        assert(t.no_duplicates()) by {
            assert forall|a: int, b: int| 0 <= a < t.len() && 0 <= b < t.len() && a != b implies t[a] != t[b] by {
                assert(s[a] == t[a] && s[b] == t[b]);
            }
        }
        lemma_remove_all_len(t, x);
        if s.last() == x {
            assert(!t.contains(x)) by {
                if t.contains(x) {
                    let i = choose|i: int| 0 <= i < t.len() && t[i] == x;
                    assert(s[i] == s[s.len() - 1]);
                }
            }
            lemma_remove_all_absent(t, x);
        }
    }
}

pub(crate) proof fn lemma_listed_students(m: Seq<SessionModel>, sv: Seq<StudentView>, sv2: Seq<StudentView>)
    requires
        rosters_listed(m, sv),
        same_students(sv, sv2),
    ensures
        rosters_listed(m, sv2),
{
    assert forall|e: int, p: int, k: int|
        0 <= e < m.len() && 0 <= p < m[e].1.len() && 0 <= k < m[e].1[p].len() implies
            is_listed(sv2, #[trigger] m[e].1[p][k]) by {
        assert(is_listed(sv, m[e].1[p][k]));
        let i = choose|i: int| 0 <= i < sv.len() && sv[i].student_id == m[e].1[p][k];
        assert(sv2[i].student_id == sv[i].student_id);
    }
}

pub(crate) proof fn lemma_listed_join(m: Seq<SessionModel>, sv: Seq<StudentView>, e: int, p: int, i: int)
    requires
        rosters_listed(m, sv),
        0 <= e < m.len(),
        0 <= p < m[e].1.len(),
        0 <= i < sv.len(),
    ensures
        rosters_listed(join(m, e, p, sv[i].student_id), sv),
{
    let m2 = join(m, e, p, sv[i].student_id);
    assert forall|x: int, q: int, k: int|
        0 <= x < m2.len() && 0 <= q < m2[x].1.len() && 0 <= k < m2[x].1[q].len() implies
            is_listed(sv, #[trigger] m2[x].1[q][k]) by {
        if x == e && q == p && k == m[e].1[p].len() {
            assert(sv[i].student_id == m2[x].1[q][k]);
        } else {
            assert(m2[x].1[q][k] == m[x].1[q][k]);
            assert(is_listed(sv, m[x].1[q][k]));
        }
    }
}

pub(crate) proof fn lemma_listed_leave(m: Seq<SessionModel>, sv: Seq<StudentView>, e: int, p: int, s: u32)
    requires
        rosters_listed(m, sv),
        0 <= e < m.len(),
        0 <= p < m[e].1.len(),
    ensures
        rosters_listed(leave(m, e, p, s), sv),
{
    let m2 = leave(m, e, p, s);
    lemma_remove_all_subset(m[e].1[p], s);
    assert forall|x: int, q: int, k: int|
        0 <= x < m2.len() && 0 <= q < m2[x].1.len() && 0 <= k < m2[x].1[q].len() implies
            is_listed(sv, #[trigger] m2[x].1[q][k]) by {
        if x == e && q == p {
            let y = m2[x].1[q][k];
            assert(y == remove_all(m[e].1[p], s)[k]);
            assert(m[e].1[p].contains(y));
            let t = choose|t: int| 0 <= t < m[e].1[p].len() && m[e].1[p][t] == y;
            assert(m[e].1[p][t] == y);
            assert(is_listed(sv, m[e].1[p][t]));
        } else {
            assert(m2[x].1[q][k] == m[x].1[q][k]);
            assert(is_listed(sv, m[x].1[q][k]));
        }
    }
}

/// A student takes session `e` in a period in which they were free.
pub(crate) proof fn lemma_agree_join(m: Seq<SessionModel>, sv: Seq<StudentView>, e: int, p: int, i: int)
    requires
        ids_distinct(m),
        shaped(m, sv, crate::NUM_PERIODS as int),
        consistent(m, sv),
        holdings_distinct(sv),
        0 <= e < m.len(),
        0 <= p < crate::NUM_PERIODS,
        0 <= i < sv.len(),
        sv[i].classes[p] == UNASSIGNED_CLASSS,
        !sv[i].classes.contains(m[e].0),
    ensures
        consistent(join(m, e, p, sv[i].student_id), set_class(sv, i, p, m[e].0)),
        holdings_distinct(set_class(sv, i, p, m[e].0)),
{
    let c = m[e].0;
    let sid = sv[i].student_id;
    let m2 = join(m, e, p, sid);
    let sv2 = set_class(sv, i, p, c);
    lemma_join_same(m, e, p, sid);
    lemma_same_sessions(m, m2);
    lemma_class_index(m, e);
    assert forall|x: int, a: int, b: int| 0 <= x < sv2.len() && 0 <= a < crate::NUM_PERIODS && 0 <= b < crate::NUM_PERIODS && a != b
        && #[trigger] sv2[x].classes[a] != UNASSIGNED_CLASSS implies sv2[x].classes[a] != #[trigger] sv2[x].classes[b] by {
        if x == i {
            if a == p {
                assert(sv[i].classes[b] == sv2[i].classes[b]);
                assert(sv[i].classes.contains(sv[i].classes[b]));
            } else if b == p {
                assert(sv[i].classes[a] == sv2[i].classes[a]);
                assert(sv[i].classes.contains(sv[i].classes[a]));
            }
        }
    }
    if student_ids_distinct(sv2) && no_marker_session(m2) {
        assert(student_ids_distinct(sv)) by {
            assert forall|a: int, b: int| 0 <= a < sv.len() && 0 <= b < sv.len() && a != b implies
                #[trigger] sv[a].student_id != #[trigger] sv[b].student_id by {
                assert(sv2[a].student_id == sv[a].student_id && sv2[b].student_id == sv[b].student_id);
            }
        }
        assert(no_marker_session(m)) by {
            assert forall|x: int| 0 <= x < m.len() implies (#[trigger] m[x]).0 != UNASSIGNED_CLASSS by {
                assert(m2[x].0 == m[x].0);
            }
        }
        assert(agree(m, sv));
        assert(!m[e].1[p].contains(sid)) by {
            if m[e].1[p].contains(sid) {
                let k = choose|k: int| 0 <= k < m[e].1[p].len() && m[e].1[p][k] == sid;
                assert(held_by_listed(sv, m[e].1[p][k], p, m[e].0));
                let j = choose|j: int| 0 <= j < sv.len() && sv[j].student_id == sid && sv[j].classes[p] == c;
                assert(sv[j].student_id == sv[i].student_id);
                assert(m[e].0 != UNASSIGNED_CLASSS);
            }
        }
        assert forall|x: int, q: int| 0 <= x < sv2.len() && 0 <= q < crate::NUM_PERIODS && #[trigger] sv2[x].classes[q] != UNASSIGNED_CLASSS
            implies has_class(m2, sv2[x].classes[q]) && roster(m2, sv2[x].classes[q], q).contains(sv2[x].student_id) by {
            if x == i && q == p {
                assert(m2[e].1[p] == m[e].1[p].push(sid));
                assert(m2[e].1[p][m[e].1[p].len() as int] == sid);
            } else {
                let cx = sv[x].classes[q];
                assert(sv2[x].classes[q] == cx);
                assert(has_class(m, cx) && roster(m, cx, q).contains(sv[x].student_id));
                let ex = class_index(m, cx);
                let k = choose|k: int| 0 <= k < roster(m, cx, q).len() && roster(m, cx, q)[k] == sv[x].student_id;
                if ex == e && q == p {
                    assert(m2[ex].1[q][k] == m[ex].1[q][k]);
                } else {
                    assert(m2[ex].1[q] == m[ex].1[q]);
                }
            }
        }
        assert forall|x: int, q: int, k: int|
            0 <= x < m2.len() && 0 <= q < m2[x].1.len() && 0 <= k < m2[x].1[q].len() implies
                held_by_listed(sv2, #[trigger] m2[x].1[q][k], q, m2[x].0) by {
            if x == e && q == p && k == m[e].1[p].len() {
                assert(m2[x].1[q][k] == sid);
                assert(sv2[i].student_id == sid && sv2[i].classes[p] == c);
            } else {
                assert(m2[x].1[q][k] == m[x].1[q][k]);
                assert(held_by_listed(sv, m[x].1[q][k], q, m[x].0));
                let j = choose|j: int| 0 <= j < sv.len() && sv[j].student_id == m[x].1[q][k] && sv[j].classes[q] == m[x].0;
                if j == i && q == p {
                    assert(m[x].0 != UNASSIGNED_CLASSS);
                }
                assert(sv2[j].student_id == sv[j].student_id && sv2[j].classes[q] == sv[j].classes[q]);
            }
        }
        assert forall|x: int, q: int| 0 <= x < m2.len() && 0 <= q < m2[x].1.len() implies (#[trigger] m2[x].1[q]).no_duplicates() by {
            if x == e && q == p {
                let r = m[e].1[p];
                let r2 = r.push(sid);
                assert(m2[x].1[q] == r2);
                assert(r.no_duplicates());
                assert forall|a: int, b: int| 0 <= a < r2.len() && 0 <= b < r2.len() && a != b implies r2[a] != r2[b] by {
                    if a == r.len() {
                        assert(r[b] == r2[b]);
                    } else if b == r.len() {
                        assert(r[a] == r2[a]);
                    }
                }
            } else {
                assert(m2[x].1[q] == m[x].1[q]);
            }
        }
    }
}

/// A student moves from session `ce` to session `e` in a period.
pub(crate) proof fn lemma_agree_move(m: Seq<SessionModel>, sv: Seq<StudentView>, ce: int, e: int, p: int, i: int)
    requires
        ids_distinct(m),
        shaped(m, sv, crate::NUM_PERIODS as int),
        consistent(m, sv),
        holdings_distinct(sv),
        0 <= e < m.len(),
        0 <= ce < m.len(),
        0 <= p < crate::NUM_PERIODS,
        0 <= i < sv.len(),
        sv[i].classes[p] == m[ce].0,
        m[ce].0 != m[e].0,
        !sv[i].classes.contains(m[e].0),
    ensures
        consistent(join(leave(m, ce, p, sv[i].student_id), e, p, sv[i].student_id), set_class(sv, i, p, m[e].0)),
        holdings_distinct(set_class(sv, i, p, m[e].0)),
{
    let c = m[e].0;
    let sid = sv[i].student_id;
    let m1 = leave(m, ce, p, sid);
    let m2 = join(m1, e, p, sid);
    let sv2 = set_class(sv, i, p, c);
    lemma_remove_all(m[ce].1[p], sid);
    assert(same_sessions(m, m1));
    lemma_same_sessions(m, m1);
    lemma_join_same(m1, e, p, sid);
    lemma_same_sessions(m1, m2);
    lemma_class_index(m, e);
    lemma_class_index(m, ce);
    assert(m1[e] == m[e]);
    assert forall|x: int, a: int, b: int| 0 <= x < sv2.len() && 0 <= a < crate::NUM_PERIODS && 0 <= b < crate::NUM_PERIODS && a != b
        && #[trigger] sv2[x].classes[a] != UNASSIGNED_CLASSS implies sv2[x].classes[a] != #[trigger] sv2[x].classes[b] by {
        if x == i {
            if a == p {
                assert(sv[i].classes[b] == sv2[i].classes[b]);
                assert(sv[i].classes.contains(sv[i].classes[b]));
            } else if b == p {
                assert(sv[i].classes[a] == sv2[i].classes[a]);
                assert(sv[i].classes.contains(sv[i].classes[a]));
            }
        }
    }
    if student_ids_distinct(sv2) && no_marker_session(m2) {
        assert(student_ids_distinct(sv)) by {
            assert forall|a: int, b: int| 0 <= a < sv.len() && 0 <= b < sv.len() && a != b implies
                #[trigger] sv[a].student_id != #[trigger] sv[b].student_id by {
                assert(sv2[a].student_id == sv[a].student_id && sv2[b].student_id == sv[b].student_id);
            }
        }
        assert(no_marker_session(m)) by {
            assert forall|x: int| 0 <= x < m.len() implies (#[trigger] m[x]).0 != UNASSIGNED_CLASSS by {
                assert(m2[x].0 == m[x].0);
            }
        }
        assert(agree(m, sv));
        assert(!m[e].1[p].contains(sid)) by {
            if m[e].1[p].contains(sid) {
                let k = choose|k: int| 0 <= k < m[e].1[p].len() && m[e].1[p][k] == sid;
                assert(held_by_listed(sv, m[e].1[p][k], p, m[e].0));
                let j = choose|j: int| 0 <= j < sv.len() && sv[j].student_id == sid && sv[j].classes[p] == c;
                assert(sv[j].student_id == sv[i].student_id);
            }
        }
        assert forall|x: int, q: int| 0 <= x < sv2.len() && 0 <= q < crate::NUM_PERIODS && #[trigger] sv2[x].classes[q] != UNASSIGNED_CLASSS
            implies has_class(m2, sv2[x].classes[q]) && roster(m2, sv2[x].classes[q], q).contains(sv2[x].student_id) by {
            if x == i && q == p {
                assert(m2[e].1[p] == m[e].1[p].push(sid));
                assert(m2[e].1[p][m[e].1[p].len() as int] == sid);
            } else {
                let cx = sv[x].classes[q];
                assert(sv2[x].classes[q] == cx);
                assert(has_class(m, cx) && roster(m, cx, q).contains(sv[x].student_id));
                let ex = class_index(m, cx);
                let k = choose|k: int| 0 <= k < roster(m, cx, q).len() && roster(m, cx, q)[k] == sv[x].student_id;
                if ex == e && q == p {
                    assert(m2[ex].1[q][k] == m[ex].1[q][k]);
                } else if ex == ce && q == p {
                    assert(x != i);
                    assert(sv[x].student_id != sid);
                    assert(m[ce].1[p].contains(sv[x].student_id));
                    assert(remove_all(m[ce].1[p], sid).contains(sv[x].student_id));
                    assert(m2[ex].1[q] == remove_all(m[ce].1[p], sid));
                } else {
                    assert(m2[ex].1[q] == m[ex].1[q]);
                }
            }
        }
        assert forall|x: int, q: int, k: int|
            0 <= x < m2.len() && 0 <= q < m2[x].1.len() && 0 <= k < m2[x].1[q].len() implies
                held_by_listed(sv2, #[trigger] m2[x].1[q][k], q, m2[x].0) by {
            let y = m2[x].1[q][k];
            if x == e && q == p && k == m[e].1[p].len() {
                assert(y == sid);
                assert(sv2[i].student_id == sid && sv2[i].classes[p] == c);
            } else if x == ce && q == p {
                assert(m2[x].1[q] == remove_all(m[ce].1[p], sid));
                assert(remove_all(m[ce].1[p], sid).contains(y));
                assert(m[ce].1[p].contains(y) && y != sid);
                let k2 = choose|k2: int| 0 <= k2 < m[ce].1[p].len() && m[ce].1[p][k2] == y;
                assert(held_by_listed(sv, m[ce].1[p][k2], p, m[ce].0));
                let j = choose|j: int| 0 <= j < sv.len() && sv[j].student_id == y && sv[j].classes[p] == m[ce].0;
                assert(j != i);
                assert(sv2[j] == sv[j]);
            } else {
                assert(y == m[x].1[q][k]);
                assert(held_by_listed(sv, m[x].1[q][k], q, m[x].0));
                let j = choose|j: int| 0 <= j < sv.len() && sv[j].student_id == y && sv[j].classes[q] == m[x].0;
                if j == i && q == p {
                    assert(m[x].0 == m[ce].0);
                    assert(x == ce);
                }
                assert(sv2[j].student_id == sv[j].student_id && sv2[j].classes[q] == sv[j].classes[q]);
            }
        }
        assert forall|x: int, q: int| 0 <= x < m2.len() && 0 <= q < m2[x].1.len() implies (#[trigger] m2[x].1[q]).no_duplicates() by {
            if x == e && q == p {
                let r = m[e].1[p];
                let r2 = r.push(sid);
                assert(m2[x].1[q] == r2);
                assert(r.no_duplicates());
                assert forall|a: int, b: int| 0 <= a < r2.len() && 0 <= b < r2.len() && a != b implies r2[a] != r2[b] by {
                    if a == r.len() {
                        assert(r[b] == r2[b]);
                    } else if b == r.len() {
                        assert(r[a] == r2[a]);
                    }
                }
            } else if x == ce && q == p {
                assert(m[ce].1[p].no_duplicates());
                assert(m2[x].1[q] == remove_all(m[ce].1[p], sid));
            } else {
                assert(m2[x].1[q] == m[x].1[q]);
            }
        }
    }
}

/// A student joins a session with room that they may take.
pub(crate) proof fn lemma_limits_join(
    m: Seq<SessionModel>,
    sv: Seq<StudentView>,
    e: int,
    p: int,
    i: int,
    max_students: i32,
    prohibited: Seq<&u16>,
)
    requires
        within_limits(m, sv, max_students, prohibited),
        shaped(m, sv, crate::NUM_PERIODS as int),
        0 <= e < m.len(),
        0 <= p < m[e].1.len(),
        0 <= i < sv.len(),
        0 <= p < sv[i].classes.len(),
        has_room(m[e].1[p].len() as int, max_students),
        allowed(sv[i].grade, m[e].0, prohibited),
    ensures
        within_limits(join(m, e, p, sv[i].student_id), set_class(sv, i, p, m[e].0), max_students, prohibited),
{
    let m2 = join(m, e, p, sv[i].student_id);
    let sv2 = set_class(sv, i, p, m[e].0);
    assert forall|x: int, q: int| 0 <= x < m2.len() && 0 <= q < m2[x].1.len() implies
        max_students < 0 || (#[trigger] m2[x].1[q]).len() <= max_students by {
        if x != e || q != p {
            assert(m2[x].1[q] == m[x].1[q]);
        }
    }
    assert forall|x: int, q: int| 0 <= x < sv2.len() && 0 <= q < crate::NUM_PERIODS && #[trigger] sv2[x].classes[q] != UNASSIGNED_CLASSS
        implies allowed(sv2[x].grade, sv2[x].classes[q], prohibited) by {
        if x != i || q != p {
            assert(sv2[x].classes[q] == sv[x].classes[q]);
        }
    }
}

pub(crate) proof fn lemma_plan_ok_kept(m: Seq<SessionModel>, sv: Seq<StudentView>, m2: Seq<SessionModel>, sv2: Seq<StudentView>)
    requires
        plan_ok(m, sv),
        same_sessions(m, m2),
        same_students(sv, sv2),
        rosters_listed(m2, sv2),
        consistent(m2, sv2),
        holdings_distinct(sv2),
    ensures
        plan_ok(m2, sv2),
        forall|c: u16| has_class(m, c) ==> #[trigger] class_index(m2, c) == class_index(m, c),
{
    lemma_same_sessions(m, m2);
    assert forall|i: int, j: int| 0 <= i < sv2.len() && 0 <= j < sv2[i].preferences.len() implies
        (#[trigger] sv2[i].preferences[j] == MISSING_PREFERENCE || has_class(m2, sv2[i].preferences[j])) by {
        assert(sv2[i].preferences == sv[i].preferences);
        assert(sv[i].preferences[j] == MISSING_PREFERENCE || has_class(m, sv[i].preferences[j]));
    }
    assert forall|e: int| 0 <= e < m2.len() implies (#[trigger] m2[e]).1.len() == crate::NUM_PERIODS as int by {
        assert(m[e].1.len() == m2[e].1.len());
    }
    assert forall|i: int| 0 <= i < sv2.len() implies (#[trigger] sv2[i]).classes.len() == crate::NUM_PERIODS as int by {
        assert(sv[i].classes.len() == sv2[i].classes.len());
    }
    assert forall|a: int, b: int| 0 <= a < sv2.len() && 0 <= b < sv2.len() && a != b implies
        #[trigger] sv2[a].student_id != #[trigger] sv2[b].student_id by {
        assert(sv2[a].student_id == sv[a].student_id && sv2[b].student_id == sv[b].student_id);
    }
}

pub(crate) proof fn lemma_holdings_after_set(m: Seq<SessionModel>, sv: Seq<StudentView>, i: int, p: int, c: u16, m2: Seq<SessionModel>)
    requires
        ids_distinct(m),
        holdings_known(m, sv),
        shaped(m, sv, crate::NUM_PERIODS as int),
        0 <= i < sv.len(),
        0 <= p < sv[i].classes.len(),
        has_class(m, c),
        same_sessions(m, m2),
    ensures
        holdings_known(m2, set_class(sv, i, p, c)),
{
    lemma_same_sessions(m, m2);
    let sv2 = set_class(sv, i, p, c);
    assert forall|x: int, q: int| 0 <= x < sv2.len() && 0 <= q < crate::NUM_PERIODS implies
        (#[trigger] sv2[x].classes[q] == UNASSIGNED_CLASSS || has_class(m2, sv2[x].classes[q])) by {
        if x == i && q == p {
        } else {
            assert(sv[x].classes.len() >= crate::NUM_PERIODS);
            assert(sv2[x].classes[q] == sv[x].classes[q]);
            assert(sv[x].classes[q] == UNASSIGNED_CLASSS || has_class(m, sv[x].classes[q]));
        }
    }
}

} // verus!
