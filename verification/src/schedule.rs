//! The schedule: for each session, the ids of the students in it in each
//! period; and the test that a finished schedule is consistent.
use vstd::prelude::*;
use crate::input::Class;
use crate::student::Student;
use crate::seq_util::{contains_ref_u16, ref_list_contains};
use crate::{NUM_PERIODS, NUM_PREFERENCES};

verus! {

/// One session's rosters: `periods[p]` lists the ids of its students in
/// period `p`, in the order they joined.
pub struct ClassSchedule {
    pub class_id: u16,
    pub periods: Vec<Vec<u32>>,
}

/// The rosters of every session, walked in the order of `entries`.
pub struct Schedule {
    pub entries: Vec<ClassSchedule>,
}

/// A session's rosters as values: its id and, per period, its students.
pub type SessionModel = (u16, Seq<Seq<u32>>);

impl View for ClassSchedule {
    type V = SessionModel;

    open spec fn view(&self) -> SessionModel {
        (self.class_id, self.periods@.map_values(|r: Vec<u32>| r@))
    }
}

impl View for Schedule {
    type V = Seq<SessionModel>;

    open spec fn view(&self) -> Seq<SessionModel> {
        self.entries@.map_values(|e: ClassSchedule| e@)
    }
}

/// No two sessions share an id.
pub open spec fn ids_distinct(m: Seq<SessionModel>) -> bool {
    forall|a: int, b: int| 0 <= a < m.len() && 0 <= b < m.len() && a != b ==> #[trigger] m[a].0 != #[trigger] m[b].0
}

/// The schedule has a session with id `id`.
pub open spec fn has_class(m: Seq<SessionModel>, id: u16) -> bool {
    exists|e: int| 0 <= e < m.len() && m[e].0 == id
}

/// The position of the session with id `id` (meaningful when it exists).
pub open spec fn class_index(m: Seq<SessionModel>, id: u16) -> int {
    choose|e: int| 0 <= e < m.len() && m[e].0 == id
}

/// The roster of session `id` in period `p`.
pub open spec fn roster(m: Seq<SessionModel>, id: u16, p: int) -> Seq<u32> {
    m[class_index(m, id)].1[p]
}

/// With distinct ids, the session at `e` is the one that `class_index` names.
pub proof fn lemma_class_index(m: Seq<SessionModel>, e: int)
    requires
        ids_distinct(m),
        0 <= e < m.len(),
    ensures
        has_class(m, m[e].0),
        class_index(m, m[e].0) == e,
{
    assert(0 <= e < m.len() && m[e].0 == m[e].0);
    let c = class_index(m, m[e].0);
    assert(0 <= c < m.len() && m[c].0 == m[e].0);
}

/// The ids of `s` without repeats, in order of first occurrence.
pub open spec fn dedup_ids(s: Seq<u16>) -> Seq<u16>
    decreases s.len(),
{
    if s.len() == 0 {
        Seq::empty()
    } else {
        let d = dedup_ids(s.drop_last());
        if d.contains(s.last()) {
            d
        } else {
            d.push(s.last())
        }
    }
}

/// `n` empty rosters.
pub open spec fn empty_periods(n: nat) -> Seq<Seq<u32>> {
    Seq::new(n, |p: int| Seq::<u32>::empty())
}

/// `dedup_ids` keeps each id once and loses none.
pub proof fn lemma_dedup_ids(s: Seq<u16>)
    ensures
        forall|a: int, b: int| 0 <= a < dedup_ids(s).len() && 0 <= b < dedup_ids(s).len() && a != b
            ==> dedup_ids(s)[a] != dedup_ids(s)[b],
        forall|x: u16| dedup_ids(s).contains(x) <==> s.contains(x),
    decreases s.len(),
{
    if s.len() > 0 {
        let t = s.drop_last();
        lemma_dedup_ids(t);
        let d = dedup_ids(t);
        assert forall|x: u16| s.contains(x) <==> (t.contains(x) || x == s.last()) by {
            if s.contains(x) {
                let i = choose|i: int| 0 <= i < s.len() && s[i] == x;
                if i < s.len() - 1 {
                    assert(t[i] == x);
                }
            }
            if t.contains(x) {
                let i = choose|i: int| 0 <= i < t.len() && t[i] == x;
                assert(s[i] == x);
            }
            if x == s.last() {
                assert(s[s.len() - 1] == x);
            }
        }
        if !d.contains(s.last()) {
            let d2 = d.push(s.last());
            assert forall|x: u16| d2.contains(x) <==> (d.contains(x) || x == s.last()) by {
                if d2.contains(x) {
                    let i = choose|i: int| 0 <= i < d2.len() && d2[i] == x;
                    if i < d.len() {
                        assert(d[i] == x);
                    }
                }
                if d.contains(x) {
                    let i = choose|i: int| 0 <= i < d.len() && d[i] == x;
                    assert(d2[i] == x);
                }
                if x == s.last() {
                    assert(d2[d.len() as int] == x);
                }
            }
            assert forall|a: int, b: int| 0 <= a < d2.len() && 0 <= b < d2.len() && a != b implies d2[a] != d2[b] by {
                if a == d.len() {
                    assert(d.contains(d2[b]));
                } else if b == d.len() {
                    assert(d.contains(d2[a]));
                }
            }
        }
    }
}

impl Schedule {
    /// Every session has its own id.
    pub open spec fn wf(&self) -> bool {
        ids_distinct(self@)
    }

    /// A schedule with an empty roster in each of `num_periods` periods for
    /// every session id of `classes`, walked in order of first occurrence; a
    /// repeated id is listed once.
    pub fn from_classes(classes: &Vec<Class>, num_periods: u16) -> (s: Schedule)
        ensures
            s.wf(),
            s@.map_values(|e: SessionModel| e.0) == dedup_ids(classes@.map_values(|c: Class| c.id)),
            forall|e: int| 0 <= e < s@.len() ==> #[trigger] s@[e].1 == empty_periods(num_periods as nat),
    {
        let mut entries: Vec<ClassSchedule> = Vec::new();
        let ghost ids = classes@.map_values(|c: Class| c.id);
        let mut k: usize = 0;
        while k < classes.len()
            invariant
                k <= classes.len(),
                ids == classes@.map_values(|c: Class| c.id),
                entries@.map_values(|e: ClassSchedule| e@).map_values(|e: SessionModel| e.0) == dedup_ids(ids.take(k as int)),
                forall|e: int| 0 <= e < entries@.len() ==> #[trigger] entries@[e]@.1 == empty_periods(num_periods as nat),
            decreases classes.len() - k,
        {
            let id = classes[k].id;
            let ghost before = entries@.map_values(|e: ClassSchedule| e@).map_values(|e: SessionModel| e.0);
            assert(ids.take(k + 1).drop_last() == ids.take(k as int));
            assert(ids.take(k + 1).last() == id);
            let mut present = false;
            let mut e: usize = 0;
            while e < entries.len()
                invariant
                    e <= entries.len(),
                    before == entries@.map_values(|x: ClassSchedule| x@).map_values(|x: SessionModel| x.0),
                    present == (exists|j: int| 0 <= j < e && before[j] == id),
                decreases entries.len() - e,
            {
                assert(before[e as int] == entries@[e as int].class_id);
                if entries[e].class_id == id {
                    present = true;
                }
                e = e + 1;
            }
            if !present {
                let mut periods: Vec<Vec<u32>> = Vec::new();
                let mut p: u16 = 0;
                while p < num_periods
                    invariant
                        p <= num_periods,
                        periods@.len() == p,
                        forall|q: int| 0 <= q < p ==> (#[trigger] periods@[q])@ == Seq::<u32>::empty(),
                    decreases num_periods - p,
                {
                    periods.push(Vec::new());
                    p = p + 1;
                }
                let entry = ClassSchedule { class_id: id, periods };
                assert(entry@.1 =~= empty_periods(num_periods as nat));
                entries.push(entry);
                assert(entries@.map_values(|x: ClassSchedule| x@).map_values(|x: SessionModel| x.0) =~= before.push(id));
            } else {
                assert(before.contains(id));
            }
            k = k + 1;
        }
        assert(ids.take(classes@.len() as int) == ids);
        let s = Schedule { entries };
        proof {
            lemma_dedup_ids(ids);
            let d = dedup_ids(ids);
            assert forall|a: int, b: int| 0 <= a < s@.len() && 0 <= b < s@.len() && a != b implies #[trigger] s@[a].0 != #[trigger] s@[b].0 by {
                assert(s@.map_values(|e: SessionModel| e.0)[a] == d[a]);
                assert(s@.map_values(|e: SessionModel| e.0)[b] == d[b]);
            }
            assert forall|e: int| 0 <= e < s@.len() implies #[trigger] s@[e].1 == empty_periods(num_periods as nat) by {
                assert(s@[e] == s.entries@[e]@);
            }
        }
        s
    }

    /// The position of the session with id `id`, if the schedule has one.
    pub fn find_class(&self, id: u16) -> (r: Option<usize>)
        requires
            self.wf(),
        ensures
            match r {
                Some(e) => e < self@.len() && self@[e as int].0 == id && class_index(self@, id) == e && has_class(self@, id),
                None => !has_class(self@, id),
            },
    {
        let mut e: usize = 0;
        while e < self.entries.len()
            invariant
                e <= self.entries.len(),
                self.wf(),
                forall|j: int| 0 <= j < e ==> self@[j].0 != id,
            decreases self.entries.len() - e,
        {
            assert(self@[e as int].0 == self.entries@[e as int].class_id);
            if self.entries[e].class_id == id {
                proof {
                    assert(self@[e as int].0 == id);
                    lemma_class_index(self@, e as int);
                }
                return Some(e);
            }
            e = e + 1;
        }
        None
    }
}

/// A roster of `len` students has fewer than the minimum; a negative minimum
/// can never be reached (it stands for a bound beyond any roster size).
pub open spec fn too_few(len: int, min_students: i32) -> bool {
    min_students < 0 || len < min_students
}

/// A roster of `len` students has more than the maximum; a negative maximum
/// means unlimited.
pub open spec fn too_many(len: int, max_students: i32) -> bool {
    max_students >= 0 && len > max_students
}

/// The index of the first student in `students` with id `s`.
pub open spec fn first_student_index(students: Seq<Student>, s: u32) -> int {
    choose|f: int| 0 <= f < students.len() && students[f].student_id == s
        && forall|g: int| 0 <= g < f ==> students[g].student_id != s
}

/// `f` is the first index of a student with id `s`.
pub open spec fn is_first_student(students: Seq<Student>, s: u32, f: int) -> bool {
    0 <= f < students.len() && students[f].student_id == s
        && forall|g: int| 0 <= g < f ==> students[g].student_id != s
}

proof fn lemma_first_student(students: Seq<Student>, s: u32, f: int)
    requires
        is_first_student(students, s, f),
    ensures
        first_student_index(students, s) == f,
{
    let c = first_student_index(students, s);
    assert(is_first_student(students, s, c));
    if c < f {
        assert(students[c].student_id != s);
    } else if f < c {
        assert(students[f].student_id != s);
    }
}

/// When some student has id `s`, a first such student exists.
pub proof fn lemma_first_student_exists(students: Seq<Student>, s: u32, i: int)
    requires
        0 <= i < students.len(),
        students[i].student_id == s,
    ensures
        is_first_student(students, s, first_student_index(students, s)),
    decreases i,
{
    if exists|g: int| 0 <= g < i && students[g].student_id == s {
        let g = choose|g: int| 0 <= g < i && students[g].student_id == s;
        lemma_first_student_exists(students, s, g);
    } else {
        assert(is_first_student(students, s, i));
        lemma_first_student(students, s, i);
    }
}


/// Student `s`, as a lookup finds them (the first student with that id),
/// holds session `c` in period `p`; false when no student has id `s`.
pub open spec fn listed_student_holds(students: Seq<Student>, s: u32, p: int, c: u16) -> bool {
    &&& exists|f: int| 0 <= f < students.len() && students[f].student_id == s
    &&& p < students[first_student_index(students, s)].classes@.len()
    &&& students[first_student_index(students, s)].classes@[p] == c
}

/// No student is listed twice in one period: no roster lists a student
/// twice, and the rosters of two different sessions for the same period
/// share no student.
pub open spec fn listed_once(m: Seq<SessionModel>) -> bool {
    &&& forall|e: int, p: int| 0 <= e < m.len() && 0 <= p < m[e].1.len() ==> (#[trigger] m[e].1[p]).no_duplicates()
    &&& forall|a: int, b: int, p: int, s: u32|
        0 <= a < m.len() && 0 <= b < m.len() && m[a].0 != m[b].0 && 0 <= p < m[a].1.len() && 0 <= p < m[b].1.len()
            && #[trigger] m[a].1[p].contains(s) ==> !#[trigger] m[b].1[p].contains(s)
}

/// Every student listed in a roster holds that session in that period.
pub open spec fn listings_held(m: Seq<SessionModel>, students: Seq<Student>) -> bool {
    forall|e: int, p: int, k: int| 0 <= e < m.len() && 0 <= p < m[e].1.len() && 0 <= k < m[e].1[p].len()
        ==> listed_student_holds(students, #[trigger] m[e].1[p][k], p, m[e].0)
}

/// Session `c` is in the schedule and its roster for period `p` lists
/// student `s`.
pub open spec fn session_lists(m: Seq<SessionModel>, c: u16, p: int, s: u32) -> bool {
    exists|e: int| 0 <= e < m.len() && m[e].0 == c && 0 <= p < m[e].1.len() && #[trigger] m[e].1[p].contains(s)
}

/// A student passes the per-student checks: `NUM_PERIODS` sessions and
/// `NUM_PREFERENCES` preferences; and for each held session: it is in the
/// schedule and lists the student for that period, it is not prohibited for
/// a middle schooler, and it is not held twice.
pub open spec fn student_consistent(m: Seq<SessionModel>, st: Student, prohibited: Seq<&u16>) -> bool {
    &&& st.classes@.len() == NUM_PERIODS
    &&& st.preferences@.len() == NUM_PREFERENCES
    &&& forall|p: int| 0 <= p < st.classes@.len() ==> {
        let c = #[trigger] st.classes@[p];
        &&& session_lists(m, c, p, st.student_id)
        &&& !(st.grade <= 8 && ref_list_contains(prohibited, c))
        &&& forall|q: int| 0 <= q < st.classes@.len() && q != p ==> st.classes@[q] != c
    }
}

/// Some roster is outside the bounds.
pub open spec fn some_roster_out_of_bounds(m: Seq<SessionModel>, min_students: i32, max_students: i32) -> bool {
    exists|e: int, p: int| 0 <= e < m.len() && 0 <= p < m[e].1.len()
        && (too_few(#[trigger] m[e].1[p].len() as int, min_students) || too_many(m[e].1[p].len() as int, max_students))
}

/// The schedule passes every check: every roster is within the bounds, no
/// student is listed twice in one period, every listed student holds that
/// session in that period, and every student passes the per-student checks.
pub open spec fn schedule_valid_spec(
    m: Seq<SessionModel>,
    students: Seq<Student>,
    min_students: i32,
    max_students: i32,
    prohibited: Seq<&u16>,
) -> bool {
    &&& !some_roster_out_of_bounds(m, min_students, max_students)
    &&& listed_once(m)
    &&& listings_held(m, students)
    &&& forall|i: int| 0 <= i < students.len() ==> #[trigger] student_consistent(m, students[i], prohibited)
}

proof fn lemma_valid_transfer(
    m1: Seq<SessionModel>,
    m2: Seq<SessionModel>,
    students: Seq<Student>,
    min_students: i32,
    max_students: i32,
    prohibited: Seq<&u16>,
)
    requires
        forall|x: SessionModel| m1.contains(x) <==> m2.contains(x),
        schedule_valid_spec(m1, students, min_students, max_students, prohibited),
    ensures
        schedule_valid_spec(m2, students, min_students, max_students, prohibited),
{
    assert(!some_roster_out_of_bounds(m2, min_students, max_students)) by {
        if some_roster_out_of_bounds(m2, min_students, max_students) {
            let (e, p) = choose|e: int, p: int| 0 <= e < m2.len() && 0 <= p < m2[e].1.len()
                && (too_few(#[trigger] m2[e].1[p].len() as int, min_students) || too_many(m2[e].1[p].len() as int, max_students));
            assert(m2.contains(m2[e]));
            let e1 = choose|e1: int| 0 <= e1 < m1.len() && m1[e1] == m2[e];
            assert(too_few(m1[e1].1[p].len() as int, min_students) || too_many(m1[e1].1[p].len() as int, max_students));
        }
    }
    assert forall|e: int, p: int| 0 <= e < m2.len() && 0 <= p < m2[e].1.len() implies (#[trigger] m2[e].1[p]).no_duplicates() by {
        assert(m2.contains(m2[e]));
        let e1 = choose|e1: int| 0 <= e1 < m1.len() && m1[e1] == m2[e];
        assert(m1[e1].1[p].no_duplicates());
    }
    assert forall|a: int, b: int, p: int, s: u32|
        0 <= a < m2.len() && 0 <= b < m2.len() && m2[a].0 != m2[b].0 && 0 <= p < m2[a].1.len() && 0 <= p < m2[b].1.len()
            && #[trigger] m2[a].1[p].contains(s) implies !#[trigger] m2[b].1[p].contains(s) by {
        assert(m2.contains(m2[a]));
        assert(m2.contains(m2[b]));
        let a1 = choose|a1: int| 0 <= a1 < m1.len() && m1[a1] == m2[a];
        let b1 = choose|b1: int| 0 <= b1 < m1.len() && m1[b1] == m2[b];
        assert(m1[a1].1[p].contains(s));
    }
    assert forall|e: int, p: int, k: int| 0 <= e < m2.len() && 0 <= p < m2[e].1.len() && 0 <= k < m2[e].1[p].len()
        implies listed_student_holds(students, #[trigger] m2[e].1[p][k], p, m2[e].0) by {
        assert(m2.contains(m2[e]));
        let e1 = choose|e1: int| 0 <= e1 < m1.len() && m1[e1] == m2[e];
        assert(m1[e1].1[p][k] == m2[e].1[p][k]);
    }
    assert forall|i: int| 0 <= i < students.len() implies #[trigger] student_consistent(m2, students[i], prohibited) by {
        let st = students[i];
        assert(student_consistent(m1, st, prohibited));
        assert forall|p: int| 0 <= p < st.classes@.len() implies session_lists(m2, #[trigger] st.classes@[p], p, st.student_id) by {
            assert(session_lists(m1, st.classes@[p], p, st.student_id));
            let e1 = choose|e1: int| 0 <= e1 < m1.len() && m1[e1].0 == st.classes@[p] && 0 <= p < m1[e1].1.len()
                && #[trigger] m1[e1].1[p].contains(st.student_id);
            assert(m1.contains(m1[e1]));
            let e = choose|e: int| 0 <= e < m2.len() && m2[e] == m1[e1];
            assert(m2[e].1[p].contains(st.student_id));
        }
    }
}

/// Whether a schedule passes does not depend on the order of its sessions:
/// two schedules made of the same sessions get the same answer.
pub proof fn lemma_valid_order_free(
    m1: Seq<SessionModel>,
    m2: Seq<SessionModel>,
    students: Seq<Student>,
    min_students: i32,
    max_students: i32,
    prohibited: Seq<&u16>,
)
    requires
        forall|x: SessionModel| m1.contains(x) <==> m2.contains(x),
    ensures
        schedule_valid_spec(m1, students, min_students, max_students, prohibited)
            == schedule_valid_spec(m2, students, min_students, max_students, prohibited),
{
    if schedule_valid_spec(m1, students, min_students, max_students, prohibited) {
        lemma_valid_transfer(m1, m2, students, min_students, max_students, prohibited);
    }
    if schedule_valid_spec(m2, students, min_students, max_students, prohibited) {
        lemma_valid_transfer(m2, m1, students, min_students, max_students, prohibited);
    }
}

/// Whether student `s` is in the roster.
fn roster_contains(r: &Vec<u32>, s: u32) -> (b: bool)
    ensures
        b == r@.contains(s),
{
    let mut k: usize = 0;
    while k < r.len()
        invariant
            k <= r.len(),
            forall|j: int| 0 <= j < k ==> r@[j] != s,
        decreases r.len() - k,
    {
        if r[k] == s {
            return true;
        }
        k = k + 1;
    }
    false
}


/// The first student with id `s`, if any.
fn lookup_student(students: &Vec<Student>, s: u32) -> (r: Option<usize>)
    ensures
        match r {
            Some(f) => is_first_student(students@, s, f as int) && first_student_index(students@, s) == f,
            None => forall|f: int| 0 <= f < students@.len() ==> students@[f].student_id != s,
        },
{
    let mut f: usize = 0;
    while f < students.len()
        invariant
            f <= students.len(),
            forall|g: int| 0 <= g < f ==> students@[g].student_id != s,
        decreases students.len() - f,
    {
        if students[f].student_id == s {
            proof {
                lemma_first_student(students@, s, f as int);
            }
            return Some(f);
        }
        f = f + 1;
    }
    None
}

/// Whether student `s` holds session `c` in period `p` (see
/// `listed_student_holds`).
fn student_holds(students: &Vec<Student>, s: u32, p: usize, c: u16) -> (b: bool)
    ensures
        b == listed_student_holds(students@, s, p as int, c),
{
    match lookup_student(students, s) {
        Some(f) => p < students[f].classes.len() && students[f].classes[p] == c,
        None => false,
    }
}

/// The listing at position `k` of the roster of session `a` for period `p`
/// is the only listing of that student in that period.
pub open spec fn listing_unique(m: Seq<SessionModel>, a: int, p: int, k: int) -> bool {
    let s = m[a].1[p][k];
    &&& forall|j: int| 0 <= j < m[a].1[p].len() && j != k ==> m[a].1[p][j] != s
    &&& forall|b: int| 0 <= b < m.len() && b != a && p < m[b].1.len() ==> !(#[trigger] m[b].1[p]).contains(s)
}

/// The checks of one roster: in bounds; each listing the only one of its
/// student in the period; each listed student holding the session.
#[verifier::opaque]
pub open spec fn roster_checks(
    m: Seq<SessionModel>,
    students: Seq<Student>,
    a: int,
    p: int,
    min_students: i32,
    max_students: i32,
) -> (bool, bool, bool) {
    (!(too_few(m[a].1[p].len() as int, min_students) || too_many(m[a].1[p].len() as int, max_students)),
     forall|k: int| 0 <= k < m[a].1[p].len() ==> #[trigger] listing_unique(m, a, p, k),
     forall|k: int| 0 <= k < m[a].1[p].len() ==> listed_student_holds(students, #[trigger] m[a].1[p][k], p, m[a].0))
}

/// Whether the listing at position `k` is the only one of its student in
/// period `p`.
fn check_listing(schedule: &Schedule, a: usize, p: usize, k: usize) -> (ok: bool)
    requires
        a < schedule@.len(),
        p < schedule@[a as int].1.len(),
        k < schedule@[a as int].1[p as int].len(),
    ensures
        ok == listing_unique(schedule@, a as int, p as int, k as int),
{
    let ghost m = schedule@;
    assert(m[a as int] == schedule.entries@[a as int]@);
    let r = &schedule.entries[a].periods[p];
    assert(m[a as int].1[p as int] == r@);
    let s = r[k];
    let mut j: usize = 0;
    while j < r.len()
        invariant
            j <= r@.len(),
            s == r@[k as int],
            k < r@.len(),
            m == schedule@,
            a < m.len(),
            p < m[a as int].1.len(),
            m[a as int].1[p as int] == r@,
            forall|i: int| 0 <= i < j && i != k ==> r@[i] != s,
        decreases r.len() - j,
    {
        if j != k && r[j] == s {
            assert(m[a as int].1[p as int][j as int] == s);
            return false;
        }
        j = j + 1;
    }
    let mut b: usize = 0;
    while b < schedule.entries.len()
        invariant
            b <= schedule@.len(),
            m == schedule@,
            a < m.len(),
            p < m[a as int].1.len(),
            k < m[a as int].1[p as int].len(),
            s == m[a as int].1[p as int][k as int],
            forall|i: int| 0 <= i < m[a as int].1[p as int].len() && i != k ==> m[a as int].1[p as int][i] != s,
            forall|c: int| 0 <= c < b && c != a && p < m[c].1.len() ==> !(#[trigger] m[c].1[p as int]).contains(s),
        decreases schedule@.len() - b,
    {
        assert(m[b as int] == schedule.entries@[b as int]@);
        if b != a && p < schedule.entries[b].periods.len() {
            assert(m[b as int].1[p as int] == schedule.entries@[b as int].periods@[p as int]@);
            if roster_contains(&schedule.entries[b].periods[p], s) {
                assert((m[b as int].1[p as int]).contains(s));
                return false;
            }
        }
        b = b + 1;
    }
    true
}

/// The checks of one roster (see `roster_checks`).
fn check_roster(
    schedule: &Schedule,
    students: &Vec<Student>,
    a: usize,
    p: usize,
    min_students: i32,
    max_students: i32,
) -> (r: (bool, bool, bool))
    requires
        a < schedule@.len(),
        p < schedule@[a as int].1.len(),
    ensures
        r == roster_checks(schedule@, students@, a as int, p as int, min_students, max_students),
{
    let ghost m = schedule@;
    assert(m[a as int] == schedule.entries@[a as int]@);
    let c = schedule.entries[a].class_id;
    let len = schedule.entries[a].periods[p].len();
    assert(m[a as int].1[p as int] == schedule.entries@[a as int].periods@[p as int]@);
    let low = min_students < 0 || len < min_students as usize;
    let high = max_students >= 0 && len > max_students as usize;
    let mut unique = true;
    let mut held = true;
    let mut k: usize = 0;
    while k < len
        invariant
            k <= len,
            m == schedule@,
            a < m.len(),
            p < m[a as int].1.len(),
            len == m[a as int].1[p as int].len(),
            c == m[a as int].0,
            m[a as int].1[p as int] == schedule.entries@[a as int].periods@[p as int]@,
            unique == forall|j: int| 0 <= j < k ==> #[trigger] listing_unique(m, a as int, p as int, j),
            held == forall|j: int| 0 <= j < k ==> listed_student_holds(students@, #[trigger] m[a as int].1[p as int][j], p as int, c),
        decreases len - k,
    {
        if !check_listing(schedule, a, p, k) {
            unique = false;
        }
        let s = schedule.entries[a].periods[p][k];
        if !student_holds(students, s, p, c) {
            held = false;
        }
        k = k + 1;
    }
    proof {
        reveal(roster_checks);
    }
    (!(low || high), unique, held)
}

/// The roster checks of every roster of session `a`: (bounds, single
/// listings, holdings).
#[verifier::opaque]
pub open spec fn session_checks(
    m: Seq<SessionModel>,
    students: Seq<Student>,
    a: int,
    min_students: i32,
    max_students: i32,
) -> (bool, bool, bool) {
    (forall|p: int| 0 <= p < m[a].1.len() ==> (#[trigger] roster_checks(m, students, a, p, min_students, max_students)).0,
     forall|p: int| 0 <= p < m[a].1.len() ==> (#[trigger] roster_checks(m, students, a, p, min_students, max_students)).1,
     forall|p: int| 0 <= p < m[a].1.len() ==> (#[trigger] roster_checks(m, students, a, p, min_students, max_students)).2)
}

/// The roster checks of every roster of the first `n` sessions.
pub open spec fn rosters_pass(
    m: Seq<SessionModel>,
    students: Seq<Student>,
    n: int,
    min_students: i32,
    max_students: i32,
) -> (bool, bool, bool) {
    (forall|a: int| 0 <= a < n ==> (#[trigger] session_checks(m, students, a, min_students, max_students)).0,
     forall|a: int| 0 <= a < n ==> (#[trigger] session_checks(m, students, a, min_students, max_students)).1,
     forall|a: int| 0 <= a < n ==> (#[trigger] session_checks(m, students, a, min_students, max_students)).2)
}

/// The roster checks of one session.
fn check_session(schedule: &Schedule, students: &Vec<Student>, a: usize, min_students: i32, max_students: i32) -> (r: (bool, bool, bool))
    requires
        a < schedule@.len(),
    ensures
        r == session_checks(schedule@, students@, a as int, min_students, max_students),
{
    let ghost m = schedule@;
    assert(m[a as int] == schedule.entries@[a as int]@);
    let n = schedule.entries[a].periods.len();
    let mut bounds = true;
    let mut unique = true;
    let mut held = true;
    let mut p: usize = 0;
    while p < n
        invariant
            a < m.len(),
            p <= n,
            n == m[a as int].1.len(),
            m == schedule@,
            bounds == forall|q: int| 0 <= q < p ==> (#[trigger] roster_checks(m, students@, a as int, q, min_students, max_students)).0,
            unique == forall|q: int| 0 <= q < p ==> (#[trigger] roster_checks(m, students@, a as int, q, min_students, max_students)).1,
            held == forall|q: int| 0 <= q < p ==> (#[trigger] roster_checks(m, students@, a as int, q, min_students, max_students)).2,
        decreases n - p,
    {
        let (b, u, h) = check_roster(schedule, students, a, p, min_students, max_students);
        bounds = bounds && b;
        unique = unique && u;
        held = held && h;
        p = p + 1;
    }
    proof {
        reveal(session_checks);
    }
    (bounds, unique, held)
}

/// The roster checks of every roster.
fn check_rosters(schedule: &Schedule, students: &Vec<Student>, min_students: i32, max_students: i32) -> (r: (bool, bool, bool))
    ensures
        r == rosters_pass(schedule@, students@, schedule@.len() as int, min_students, max_students),
{
    let ghost m = schedule@;
    let mut bounds = true;
    let mut unique = true;
    let mut held = true;
    let mut a: usize = 0;
    while a < schedule.entries.len()
        invariant
            a <= m.len(),
            m == schedule@,
            bounds == forall|x: int| 0 <= x < a ==> (#[trigger] session_checks(m, students@, x, min_students, max_students)).0,
            unique == forall|x: int| 0 <= x < a ==> (#[trigger] session_checks(m, students@, x, min_students, max_students)).1,
            held == forall|x: int| 0 <= x < a ==> (#[trigger] session_checks(m, students@, x, min_students, max_students)).2,
        decreases m.len() - a,
    {
        let (b, u, h) = check_session(schedule, students, a, min_students, max_students);
        bounds = bounds && b;
        unique = unique && u;
        held = held && h;
        a = a + 1;
    }
    (bounds, unique, held)
}

/// With distinct session ids, every listing being the only one of its
/// student in its period is the same as no student being listed twice in
/// one period.
proof fn lemma_listed_once(m: Seq<SessionModel>)
    requires
        ids_distinct(m),
    ensures
        listed_once(m) == forall|a: int, p: int, k: int| 0 <= a < m.len() && 0 <= p < m[a].1.len() && 0 <= k < m[a].1[p].len()
            ==> #[trigger] listing_unique(m, a, p, k),
{
    if listed_once(m) {
        assert forall|a: int, p: int, k: int| 0 <= a < m.len() && 0 <= p < m[a].1.len() && 0 <= k < m[a].1[p].len()
            implies #[trigger] listing_unique(m, a, p, k) by {
            let s = m[a].1[p][k];
            assert(m[a].1[p].no_duplicates());
            assert(m[a].1[p].contains(s));
            assert forall|b: int| 0 <= b < m.len() && b != a && p < m[b].1.len() implies !(#[trigger] m[b].1[p]).contains(s) by {
                assert(m[a].0 != m[b].0);
            }
        }
    }
    if forall|a: int, p: int, k: int| 0 <= a < m.len() && 0 <= p < m[a].1.len() && 0 <= k < m[a].1[p].len()
        ==> #[trigger] listing_unique(m, a, p, k) {
        assert forall|e: int, p: int| 0 <= e < m.len() && 0 <= p < m[e].1.len() implies (#[trigger] m[e].1[p]).no_duplicates() by {
            assert forall|i: int, j: int| 0 <= i < m[e].1[p].len() && 0 <= j < m[e].1[p].len() && i != j
                implies m[e].1[p][i] != m[e].1[p][j] by {
                assert(listing_unique(m, e, p, i));
            }
        }
        assert forall|a: int, b: int, p: int, s: u32|
            0 <= a < m.len() && 0 <= b < m.len() && m[a].0 != m[b].0 && 0 <= p < m[a].1.len() && 0 <= p < m[b].1.len()
                && #[trigger] m[a].1[p].contains(s) implies !#[trigger] m[b].1[p].contains(s) by {
            let k = choose|k: int| 0 <= k < m[a].1[p].len() && m[a].1[p][k] == s;
            assert(listing_unique(m, a, p, k));
        }
    }
}

/// Whether the student passes the per-student checks.
fn student_checks(schedule: &Schedule, st: &Student, prohibited: &[&u16]) -> (ok: bool)
    requires
        schedule.wf(),
    ensures
        ok == student_consistent(schedule@, *st, prohibited@),
{
    let ghost m = schedule@;
    let mut ok = st.classes.len() == NUM_PERIODS as usize && st.preferences.len() == NUM_PREFERENCES;
    let mut p: usize = 0;
    while p < st.classes.len()
        invariant
            p <= st.classes.len(),
            m == schedule@,
            schedule.wf(),
            ok == (st.classes@.len() == NUM_PERIODS && st.preferences@.len() == NUM_PREFERENCES
                && forall|q: int| 0 <= q < p ==> {
                    let c = #[trigger] st.classes@[q];
                    &&& session_lists(m, c, q, st.student_id)
                    &&& !(st.grade <= 8 && ref_list_contains(prohibited@, c))
                    &&& forall|r: int| 0 <= r < st.classes@.len() && r != q ==> st.classes@[r] != c
                }),
        decreases st.classes.len() - p,
    {
        let c = st.classes[p];
        let listed = match schedule.find_class(c) {
            Some(e) => {
                assert(m[e as int] == schedule.entries@[e as int]@);
                if p < schedule.entries[e].periods.len() {
                    assert(m[e as int].1[p as int] == schedule.entries@[e as int].periods@[p as int]@);
                    roster_contains(&schedule.entries[e].periods[p], st.student_id)
                } else {
                    false
                }
            },
            None => false,
        };
        proof {
            if session_lists(m, c, p as int, st.student_id) {
                let e2 = choose|e2: int| 0 <= e2 < m.len() && m[e2].0 == c && 0 <= p < m[e2].1.len()
                    && #[trigger] m[e2].1[p as int].contains(st.student_id);
                assert(has_class(m, c));
                lemma_class_index(m, e2);
            }
        }
        let allowed = !(st.grade <= 8 && contains_ref_u16(prohibited, c));
        let mut r: usize = 0;
        let mut unique = true;
        while r < st.classes.len()
            invariant
                r <= st.classes.len(),
                c == st.classes@[p as int],
                unique == forall|q: int| 0 <= q < r && q != p ==> st.classes@[q] != c,
            decreases st.classes.len() - r,
        {
            if r != p && st.classes[r] == c {
                unique = false;
            }
            r = r + 1;
        }
        if !(listed && allowed && unique) {
            ok = false;
        }
        p = p + 1;
    }
    ok
}

/// Whether a finished schedule is consistent: every roster within the
/// bounds (a negative maximum is unlimited; a negative minimum cannot be
/// met); no student listed twice in one period; every listed student
/// holding that session in that period (a listed id that no student has
/// fails); and every student passing the per-student checks, among them
/// that each session they hold is in the schedule and lists them. The answer
/// does not depend on the order of the sessions (`lemma_valid_order_free`).
pub fn schedule_valid(
    schedule: &Schedule,
    i_students: &Vec<Student>,
    min_students: i32,
    max_students: i32,
    middle_school_prohibited_classes: &[&u16],
) -> (valid: bool)
    requires
        schedule.wf(),
    ensures
        valid == schedule_valid_spec(schedule@, i_students@, min_students, max_students, middle_school_prohibited_classes@),
{
    let ghost m = schedule@;
    let (bounds, unique, held) = check_rosters(schedule, i_students, min_students, max_students);
    let mut students_ok = true;
    let mut i: usize = 0;
    while i < i_students.len()
        invariant
            i <= i_students.len(),
            schedule.wf(),
            students_ok == forall|j: int| 0 <= j < i ==> #[trigger] student_consistent(schedule@, i_students@[j], middle_school_prohibited_classes@),
        decreases i_students.len() - i,
    {
        if !student_checks(schedule, &i_students[i], middle_school_prohibited_classes) {
            students_ok = false;
        }
        i = i + 1;
    }
    proof {
        lemma_listed_once(m);
        reveal(roster_checks);
        reveal(session_checks);
        assert(bounds == !some_roster_out_of_bounds(m, min_students, max_students)) by {
            if some_roster_out_of_bounds(m, min_students, max_students) {
                let (e, p) = choose|e: int, p: int| 0 <= e < m.len() && 0 <= p < m[e].1.len()
                    && (too_few(#[trigger] m[e].1[p].len() as int, min_students) || too_many(m[e].1[p].len() as int, max_students));
                assert(!roster_checks(m, i_students@, e, p, min_students, max_students).0);
                assert(!session_checks(m, i_students@, e, min_students, max_students).0);
            }
            if !bounds {
                let e = choose|e: int| 0 <= e < m.len() && !(#[trigger] session_checks(m, i_students@, e, min_students, max_students)).0;
                let p = choose|p: int| 0 <= p < m[e].1.len() && !(#[trigger] roster_checks(m, i_students@, e, p, min_students, max_students)).0;
                assert(too_few(m[e].1[p].len() as int, min_students) || too_many(m[e].1[p].len() as int, max_students));
            }
        }
        assert(unique == listed_once(m)) by {
            if !unique {
                let a = choose|a: int| 0 <= a < m.len() && !(#[trigger] session_checks(m, i_students@, a, min_students, max_students)).1;
                let p = choose|p: int| 0 <= p < m[a].1.len() && !(#[trigger] roster_checks(m, i_students@, a, p, min_students, max_students)).1;
                let k = choose|k: int| 0 <= k < m[a].1[p].len() && !#[trigger] listing_unique(m, a, p, k);
            }
            if !listed_once(m) {
                let (a, p, k) = choose|a: int, p: int, k: int| 0 <= a < m.len() && 0 <= p < m[a].1.len() && 0 <= k < m[a].1[p].len()
                    && !#[trigger] listing_unique(m, a, p, k);
                assert(!roster_checks(m, i_students@, a, p, min_students, max_students).1);
                assert(!session_checks(m, i_students@, a, min_students, max_students).1);
            }
        }
        assert(held == listings_held(m, i_students@)) by {
            if !held {
                let a = choose|a: int| 0 <= a < m.len() && !(#[trigger] session_checks(m, i_students@, a, min_students, max_students)).2;
                let p = choose|p: int| 0 <= p < m[a].1.len() && !(#[trigger] roster_checks(m, i_students@, a, p, min_students, max_students)).2;
                let k = choose|k: int| 0 <= k < m[a].1[p].len() && !listed_student_holds(i_students@, #[trigger] m[a].1[p][k], p, m[a].0);
            }
            if !listings_held(m, i_students@) {
                let (a, p, k) = choose|a: int, p: int, k: int| 0 <= a < m.len() && 0 <= p < m[a].1.len() && 0 <= k < m[a].1[p].len()
                    && !listed_student_holds(i_students@, #[trigger] m[a].1[p][k], p, m[a].0);
                assert(!roster_checks(m, i_students@, a, p, min_students, max_students).2);
                assert(!session_checks(m, i_students@, a, min_students, max_students).2);
            }
        }
    }
    bounds && unique && held && students_ok
}

} // verus!
