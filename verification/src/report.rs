//! What the reports are made of: the output order of the students, the
//! session behind each period of a student, satisfaction totals by grade,
//! and how many upper classmen wanted and got each session.
use vstd::prelude::*;
use crate::student::{Student, satisfaction_points, points_fit};
use crate::input::Class;
use crate::schedule::{Schedule, SessionModel};
use crate::{NUM_PERIODS, NUM_PREFERENCES, UNASSIGNED_CLASSS};

verus! {

/// `a` comes before `b` in text order: character by character by code
/// point, a proper prefix first (the order of `String` comparison).
pub open spec fn text_lt(a: Seq<char>, b: Seq<char>) -> bool
    decreases a.len(),
{
    if b.len() == 0 {
        false
    } else if a.len() == 0 {
        true
    } else if (a[0] as u32) < (b[0] as u32) {
        true
    } else if a[0] == b[0] {
        text_lt(a.drop_first(), b.drop_first())
    } else {
        false
    }
}

/// Whether `a` comes before `b` in text order.
pub fn text_less(a: &str, b: &str) -> (r: bool)
    ensures
        r == text_lt(a@, b@),
{
    let n = a.unicode_len();
    let m = b.unicode_len();
    let mut k: usize = 0;
    assert(a@.skip(0) =~= a@ && b@.skip(0) =~= b@);
    while k < n && k < m && a.get_char(k) == b.get_char(k)
        invariant
            k <= n,
            k <= m,
            n == a@.len(),
            m == b@.len(),
            text_lt(a@, b@) == text_lt(a@.skip(k as int), b@.skip(k as int)),
        decreases n - k,
    {
        assert(a@.skip(k as int).drop_first() =~= a@.skip(k + 1));
        assert(b@.skip(k as int).drop_first() =~= b@.skip(k + 1));
        assert(a@.skip(k as int)[0] == a@[k as int]);
        assert(b@.skip(k as int)[0] == b@[k as int]);
        k = k + 1;
    }
    if k == m {
        false
    } else if k == n {
        true
    } else {
        assert(a@.skip(k as int)[0] == a@[k as int]);
        assert(b@.skip(k as int)[0] == b@[k as int]);
        (a.get_char(k) as u32) < (b.get_char(k) as u32)
    }
}

/// Inserts `x` into `s` just before the first student whose last name comes
/// after that of `x`.
pub open spec fn insert_by_last_name(s: Seq<Student>, x: Student) -> Seq<Student>
    decreases s.len(),
{
    if s.len() == 0 {
        seq![x]
    } else if text_lt(x.last_name@, s[0].last_name@) {
        seq![x] + s
    } else {
        seq![s[0]] + insert_by_last_name(s.drop_first(), x)
    }
}

/// The students ordered by last name; students with the same last name keep
/// their order.
pub open spec fn by_last_name(s: Seq<Student>) -> Seq<Student>
    decreases s.len(),
{
    if s.len() == 0 {
        Seq::empty()
    } else {
        insert_by_last_name(by_last_name(s.drop_last()), s.last())
    }
}

proof fn lemma_insert_by_last_name_split(s: Seq<Student>, x: Student, q: int)
    requires
        0 <= q <= s.len(),
        forall|k: int| 0 <= k < q ==> !text_lt(x.last_name@, (#[trigger] s[k]).last_name@),
        q < s.len() ==> text_lt(x.last_name@, s[q].last_name@),
    ensures
        insert_by_last_name(s, x) == s.take(q).push(x) + s.skip(q),
    decreases s.len(),
{
    if s.len() == 0 {
        assert(s.take(q).push(x) + s.skip(q) =~= seq![x]);
    } else if q == 0 {
        assert(s.take(q).push(x) + s.skip(q) =~= seq![x] + s);
    } else {
        let t = s.drop_first();
        assert forall|k: int| 0 <= k < q - 1 implies !text_lt(x.last_name@, (#[trigger] t[k]).last_name@) by {
            assert(t[k] == s[k + 1]);
        }
        if q - 1 < t.len() {
            assert(t[q - 1] == s[q]);
        }
        assert(!text_lt(x.last_name@, s[0].last_name@));
        lemma_insert_by_last_name_split(t, x, q - 1);
        assert(seq![s[0]] + (t.take(q - 1).push(x) + t.skip(q - 1)) =~= s.take(q).push(x) + s.skip(q));
    }
}

/// Text order is transitive.
pub proof fn lemma_text_lt_trans(a: Seq<char>, b: Seq<char>, c: Seq<char>)
    requires
        text_lt(a, b),
        text_lt(b, c),
    ensures
        text_lt(a, c),
    decreases a.len(),
{
    if a.len() > 0 && a[0] == b[0] && b[0] == c[0] {
        lemma_text_lt_trans(a.drop_first(), b.drop_first(), c.drop_first());
    }
}

/// No text comes before itself.
pub proof fn lemma_text_lt_irreflexive(a: Seq<char>)
    ensures
        !text_lt(a, a),
    decreases a.len(),
{
    if a.len() > 0 {
        lemma_text_lt_irreflexive(a.drop_first());
    }
}

/// The students are in order of last name.
pub open spec fn sorted_by_last_name(s: Seq<Student>) -> bool {
    forall|i: int, j: int| 0 <= i < j < s.len() ==> !text_lt((#[trigger] s[j]).last_name@, (#[trigger] s[i]).last_name@)
}

proof fn lemma_insert_by_last_name_sorted(s: Seq<Student>, x: Student)
    requires
        sorted_by_last_name(s),
    ensures
        sorted_by_last_name(insert_by_last_name(s, x)),
        insert_by_last_name(s, x).len() == s.len() + 1,
        forall|k: int| 0 <= k < insert_by_last_name(s, x).len() ==>
            #[trigger] insert_by_last_name(s, x)[k] == x || s.contains(insert_by_last_name(s, x)[k]),
    decreases s.len(),
{
    if s.len() == 0 {
    } else if text_lt(x.last_name@, s[0].last_name@) {
        let r = seq![x] + s;
        assert(insert_by_last_name(s, x) == r);
        assert forall|i: int, j: int| 0 <= i < j < r.len() implies !text_lt((#[trigger] r[j]).last_name@, (#[trigger] r[i]).last_name@) by {
            if i == 0 {
                assert(r[j] == s[j - 1]);
                if text_lt(s[j - 1].last_name@, x.last_name@) {
                    lemma_text_lt_trans(s[j - 1].last_name@, x.last_name@, s[0].last_name@);
                    lemma_text_lt_irreflexive(s[0].last_name@);
                }
            } else {
                assert(r[i] == s[i - 1] && r[j] == s[j - 1]);
            }
        }
        assert forall|k: int| 0 <= k < r.len() implies #[trigger] r[k] == x || s.contains(r[k]) by {
            if k > 0 {
                assert(r[k] == s[k - 1]);
            }
        }
    } else {
        let t = s.drop_first();
        assert(sorted_by_last_name(t)) by {
            assert forall|i: int, j: int| 0 <= i < j < t.len() implies !text_lt((#[trigger] t[j]).last_name@, (#[trigger] t[i]).last_name@) by {
                assert(t[i] == s[i + 1] && t[j] == s[j + 1]);
            }
        }
        lemma_insert_by_last_name_sorted(t, x);
        let i2 = insert_by_last_name(t, x);
        let r = seq![s[0]] + i2;
        assert(insert_by_last_name(s, x) == r);
        assert forall|k: int| 0 <= k < r.len() implies #[trigger] r[k] == x || s.contains(r[k]) by {
            if k == 0 {
                assert(s[0] == r[0]);
            } else {
                assert(r[k] == i2[k - 1]);
                if i2[k - 1] != x {
                    assert(t.contains(i2[k - 1]));
                    let w = choose|w: int| 0 <= w < t.len() && t[w] == i2[k - 1];
                    assert(s[w + 1] == t[w]);
                }
            }
        }
        assert forall|i: int, j: int| 0 <= i < j < r.len() implies !text_lt((#[trigger] r[j]).last_name@, (#[trigger] r[i]).last_name@) by {
            if i == 0 {
                assert(r[j] == i2[j - 1]);
                if i2[j - 1] != x {
                    assert(t.contains(i2[j - 1]));
                    let w = choose|w: int| 0 <= w < t.len() && t[w] == i2[j - 1];
                    assert(s[w + 1] == t[w]);
                }
            } else {
                assert(r[i] == i2[i - 1] && r[j] == i2[j - 1]);
            }
        }
    }
}

/// Students come out of `by_last_name` ordered by last name, one for one.
pub proof fn lemma_by_last_name_sorted(s: Seq<Student>)
    ensures
        sorted_by_last_name(by_last_name(s)),
        by_last_name(s).len() == s.len(),
    decreases s.len(),
{
    if s.len() > 0 {
        lemma_by_last_name_sorted(s.drop_last());
        lemma_insert_by_last_name_sorted(by_last_name(s.drop_last()), s.last());
    }
}

/// Orders the students by last name, keeping the order of students with the
/// same last name (see `by_last_name`).
pub fn sort_by_last_name(students: &mut Vec<Student>)
    ensures
        final(students)@ == by_last_name(old(students)@),
{
    let ghost all = students@;
    let mut rest: Vec<Student> = Vec::new();
    std::mem::swap(&mut rest, students);
    // `rest` is consumed from the back; `pending` then holds it in order.
    let mut pending: Vec<Student> = Vec::new();
    let n = rest.len();
    while rest.len() > 0
        invariant
            rest@.len() + pending@.len() == n,
            all.len() == n,
            rest@ == all.subrange(0, rest@.len() as int),
            pending@ == all.subrange(rest@.len() as int, n as int).reverse(),
        decreases rest.len(),
    {
        let s = rest.pop().unwrap();
        pending.push(s);
        assert(pending@ =~= all.subrange(rest@.len() as int, n as int).reverse());
    }
    let mut sorted: Vec<Student> = Vec::new();
    let mut k: usize = 0;
    while pending.len() > 0
        invariant
            pending@.len() + k == n,
            all.len() == n,
            pending@ == all.subrange(k as int, n as int).reverse(),
            sorted@ == by_last_name(all.take(k as int)),
        decreases pending.len(),
    {
        let x = pending.pop().unwrap();
        assert(x == all[k as int]);
        let mut q: usize = 0;
        while q < sorted.len() && !text_less(x.last_name.as_str(), sorted[q].last_name.as_str())
            invariant
                q <= sorted@.len(),
                forall|j: int| 0 <= j < q ==> !text_lt(x.last_name@, (#[trigger] sorted@[j]).last_name@),
            decreases sorted@.len() - q,
        {
            q = q + 1;
        }
        proof {
            lemma_insert_by_last_name_split(sorted@, x, q as int);
            assert(all.take(k + 1).drop_last() =~= all.take(k as int));
            assert(all.take(k + 1).last() == x);
        }
        let ghost before = sorted@;
        sorted.insert(q, x);
        assert(sorted@ =~= before.take(q as int).push(x) + before.skip(q as int));
        k = k + 1;
        assert(pending@ =~= all.subrange(k as int, n as int).reverse());
    }
    assert(all.take(n as int) =~= all);
    *students = sorted;
}

/// The position of the first session with id `id`, if any.
pub open spec fn first_session(classes: Seq<Class>, id: u16) -> Option<int> {
    if exists|k: int| 0 <= k < classes.len() && classes[k].id == id {
        Some(choose|k: int| 0 <= k < classes.len() && classes[k].id == id
            && forall|j: int| 0 <= j < k ==> classes[j].id != id)
    } else {
        None
    }
}

/// The first session with id `id`, if any.
pub fn find_session(classes: &Vec<Class>, id: u16) -> (r: Option<usize>)
    ensures
        match r {
            Some(k) => k < classes@.len() && classes@[k as int].id == id
                && forall|j: int| 0 <= j < k ==> classes@[j].id != id,
            None => forall|j: int| 0 <= j < classes@.len() ==> classes@[j].id != id,
        },
        r matches Some(k) ==> first_session(classes@, id) == Some(k as int),
        r is None <==> first_session(classes@, id) is None,
{
    let mut k: usize = 0;
    while k < classes.len()
        invariant
            k <= classes@.len(),
            forall|j: int| 0 <= j < k ==> classes@[j].id != id,
        decreases classes@.len() - k,
    {
        if classes[k].id == id {
            proof {
                let f = choose|f: int| 0 <= f < classes@.len() && classes@[f].id == id
                    && forall|j: int| 0 <= j < f ==> classes@[j].id != id;
                assert(0 <= f < classes@.len() && classes@[f].id == id && forall|j: int| 0 <= j < f ==> classes@[j].id != id) by {
                    assert(0 <= k < classes@.len() && classes@[k as int].id == id
                        && forall|j: int| 0 <= j < k ==> classes@[j].id != id);
                }
                if f < k {
                } else if f > k {
                    assert(classes@[k as int].id != id);
                }
            }
            return Some(k);
        }
        k = k + 1;
    }
    None
}

/// Every session the student holds is in the session list.
pub open spec fn holds_listed_sessions(classes: Seq<Class>, st: Student) -> bool {
    forall|p: int| 0 <= p < st.classes@.len() ==> #[trigger] first_session(classes, st.classes@[p]) is Some
}

/// The session behind each period of the student: for every period, the
/// position in `classes` of the first session with the id the student holds.
/// Every session the student holds must be listed.
pub fn held_sessions(classes: &Vec<Class>, st: &Student) -> (r: Vec<usize>)
    requires
        holds_listed_sessions(classes@, *st),
    ensures
        r@.len() == st.classes@.len(),
        forall|p: int| 0 <= p < r@.len() ==> first_session(classes@, st.classes@[p]) == Some(#[trigger] r@[p] as int),
{
    let mut v: Vec<usize> = Vec::new();
    let mut p: usize = 0;
    while p < st.classes.len()
        invariant
            p <= st.classes@.len(),
            v@.len() == p,
            holds_listed_sessions(classes@, *st),
            forall|q: int| 0 <= q < p ==> first_session(classes@, st.classes@[q]) == Some(#[trigger] v@[q] as int),
        decreases st.classes@.len() - p,
    {
        match find_session(classes, st.classes[p]) {
            Some(k) => {
                v.push(k);
            },
            None => {
                assert(first_session(classes@, st.classes@[p as int]) is Some);
            },
        }
        p = p + 1;
    }
    v
}

/// The satisfaction points of a perfect schedule: the number of preferences
/// minus the period's position, summed over the periods.
pub open spec fn perfect_points(n: int) -> int
    decreases n,
{
    if n <= 0 {
        0
    } else {
        perfect_points(n - 1) + (NUM_PREFERENCES - (n - 1))
    }
}

/// The satisfaction points of a perfect schedule (see `perfect_points`).
pub fn perfect_satisfaction() -> (r: i64)
    ensures
        r == perfect_points(NUM_PERIODS as int),
{
    let mut total: i64 = 0;
    let mut i: u16 = 0;
    while i < NUM_PERIODS
        invariant
            i <= NUM_PERIODS,
            total == perfect_points(i as int),
            0 <= total <= 6 * i,
        decreases NUM_PERIODS - i,
    {
        total = total + (NUM_PREFERENCES as i64 - i as i64);
        i = i + 1;
    }
    total
}

/// The number of grades reported on, seventh to twelfth.
pub const NUM_GRADES: usize = 6;

/// Of the first `n` students, those in `grade`: (their satisfaction points
/// summed, their number).
pub open spec fn grade_tally(s: Seq<Student>, grade: int, n: int) -> (int, int)
    decreases n,
{
    if n <= 0 {
        (0, 0)
    } else {
        let t = grade_tally(s, grade, n - 1);
        if s[n - 1].grade == grade {
            (t.0 + satisfaction_points(s[n - 1].preferences@, s[n - 1].classes@, s[n - 1].classes@.len() as int), t.1 + 1)
        } else {
            t
        }
    }
}

/// The satisfaction points of a list of students, summed.
pub open spec fn points_total(s: Seq<Student>) -> int
    decreases s.len(),
{
    if s.len() == 0 {
        0
    } else {
        points_total(s.drop_last())
            + satisfaction_points(s.last().preferences@, s.last().classes@, s.last().classes@.len() as int)
    }
}

/// The students of a list whose grade is exactly `grade`.
pub open spec fn in_grade(s: Seq<Student>, grade: int) -> Seq<Student> {
    s.filter(|x: Student| x.grade == grade)
}

/// Each grade's tally over the first `n` students counts exactly the
/// students of that grade and sums exactly their satisfaction points.
pub proof fn lemma_grade_tally_by_grade(s: Seq<Student>, grade: int, n: int)
    requires
        0 <= n <= s.len(),
    ensures
        grade_tally(s, grade, n) == (points_total(in_grade(s.take(n), grade)), in_grade(s.take(n), grade).len() as int),
    decreases n,
{
    reveal(Seq::filter);
    if n == 0 {
        assert(s.take(0).len() == 0);
    } else {
        lemma_grade_tally_by_grade(s, grade, n - 1);
        let t = s.take(n);
        assert(t.drop_last() =~= s.take(n - 1));
        assert(t.last() == s[n - 1]);
        let f = |x: Student| x.grade == grade;
        assert(t.filter(f) == if f(t.last()) { t.drop_last().filter(f).push(t.last()) } else { t.drop_last().filter(f) });
        if s[n - 1].grade == grade {
            let g = t.drop_last().filter(f).push(t.last());
            assert(g.drop_last() =~= t.drop_last().filter(f));
            assert(g.last() == s[n - 1]);
        }
    }
}

/// What `satisfaction_by_grade` gives for grade `g` (7 to 12): the number
/// of students whose grade is exactly `g`, and the sum of their points.
pub proof fn lemma_satisfaction_by_grade_counts(s: Seq<Student>, g: int)
    ensures
        grade_tally(s, g, s.len() as int) == (points_total(in_grade(s, g)), in_grade(s, g).len() as int),
{
    lemma_grade_tally_by_grade(s, g, s.len() as int);
    assert(s.take(s.len() as int) =~= s);
}

/// The student's sessions can all be scored: none is the open-period
/// marker, and every running total of their points fits in an `i64`.
pub open spec fn scorable_student(st: Student) -> bool {
    &&& forall|i: int| 0 <= i < st.classes@.len() ==> st.classes@[i] != UNASSIGNED_CLASSS
    &&& st.preferences@.len() <= i64::MAX
    &&& points_fit(st.preferences@, st.classes@)
}

/// Every running total of every grade's points fits in an `i64`.
pub open spec fn tallies_fit(students: Seq<Student>) -> bool {
    forall|g: int, k: int| 7 <= g <= 12 && 0 <= k <= students.len()
        ==> i64::MIN <= #[trigger] grade_tally(students, g, k).0 <= i64::MAX
}

/// For each grade from seventh to twelfth (position `grade - 7`): the
/// satisfaction points of its students summed, and their number. Every
/// student must be in one of those grades and scorable, and the sums must
/// fit in an `i64`.
pub fn satisfaction_by_grade(students: &Vec<Student>) -> (t: Vec<(i64, u64)>)
    requires
        forall|i: int| 0 <= i < students@.len() ==> 7 <= #[trigger] students@[i].grade <= 12,
        forall|i: int| 0 <= i < students@.len() ==> #[trigger] scorable_student(students@[i]),
        tallies_fit(students@),
    ensures
        t@.len() == NUM_GRADES,
        forall|g: int| 0 <= g < NUM_GRADES ==> (#[trigger] t@[g]).0 == grade_tally(students@, g + 7, students@.len() as int).0
            && t@[g].1 == grade_tally(students@, g + 7, students@.len() as int).1,
{
    let mut t: Vec<(i64, u64)> = Vec::new();
    let mut g: usize = 0;
    while g < NUM_GRADES
        invariant
            g <= NUM_GRADES,
            t@.len() == g,
            forall|h: int| 0 <= h < g ==> #[trigger] t@[h] == (0i64, 0u64),
        decreases NUM_GRADES - g,
    {
        t.push((0, 0));
        g = g + 1;
    }
    let mut i: usize = 0;
    while i < students.len()
        invariant
            i <= students@.len(),
            forall|j: int| 0 <= j < students@.len() ==> 7 <= #[trigger] students@[j].grade <= 12,
            forall|j: int| 0 <= j < students@.len() ==> #[trigger] scorable_student(students@[j]),
            tallies_fit(students@),
            t@.len() == NUM_GRADES,
            forall|h: int| 0 <= h < NUM_GRADES ==> (#[trigger] t@[h]).0 == grade_tally(students@, h + 7, i as int).0
                && t@[h].1 == grade_tally(students@, h + 7, i as int).1
                && t@[h].1 <= i,
        decreases students@.len() - i,
    {
        let st = &students[i];
        assert(scorable_student(students@[i as int]));
        assert(7 <= students@[i as int].grade <= 12);
        let points = st.satisfaction();
        let h = (st.grade - 7) as usize;
        let (sum, count) = t[h];
        proof {
            assert(t@[h as int] == (sum, count));
            assert(grade_tally(students@, h + 7, i + 1).0 == sum + points);
            assert(i64::MIN <= grade_tally(students@, h + 7, i + 1).0 <= i64::MAX);
        }
        t.set(h, (sum + points, count + 1));
        i = i + 1;
    }
    t
}

/// Of the first `n` students, the upper classmen (grade 11 or more) whose
/// preference of rank `rank` is session `c`.
pub open spec fn wanted_count(s: Seq<Student>, c: u16, rank: int, n: int) -> int
    decreases n,
{
    if n <= 0 {
        0
    } else {
        let st = s[n - 1];
        wanted_count(s, c, rank, n - 1) + if st.grade >= 11 && rank < st.preferences@.len() && st.preferences@[rank] == c {
            1int
        } else {
            0int
        }
    }
}

/// Of those, the ones who hold session `c`.
pub open spec fn granted_count(s: Seq<Student>, c: u16, rank: int, n: int) -> int
    decreases n,
{
    if n <= 0 {
        0
    } else {
        let st = s[n - 1];
        granted_count(s, c, rank, n - 1) + if st.grade >= 11 && rank < st.preferences@.len() && st.preferences@[rank] == c
            && st.classes@.contains(c) {
            1int
        } else {
            0int
        }
    }
}

/// No more students get a session than wanted it.
pub proof fn lemma_granted_at_most_wanted(s: Seq<Student>, c: u16, rank: int, n: int)
    ensures
        0 <= granted_count(s, c, rank, n) <= wanted_count(s, c, rank, n) <= if n > 0 { n } else { 0 },
    decreases n,
{
    if n > 0 {
        lemma_granted_at_most_wanted(s, c, rank, n - 1);
    }
}

/// Demand for one session among upper classmen: for each preference rank,
/// how many named it there (`wanted`) and how many of those hold it
/// (`granted`).
pub struct Demand {
    pub class_id: u16,
    pub wanted: Vec<usize>,
    pub granted: Vec<usize>,
}

/// `d` holds, for its session, the demand among `students` at every rank.
pub open spec fn demand_counted(d: Demand, students: Seq<Student>) -> bool {
    &&& d.wanted@.len() == NUM_PREFERENCES
    &&& d.granted@.len() == NUM_PREFERENCES
    &&& forall|x: int| 0 <= x < NUM_PREFERENCES ==> #[trigger] d.wanted@[x] == wanted_count(students, d.class_id, x, students.len() as int)
    &&& forall|x: int| 0 <= x < NUM_PREFERENCES ==> #[trigger] d.granted@[x] == granted_count(students, d.class_id, x, students.len() as int)
}

/// The session ids keyed so that the highest key is the smallest id.
pub open spec fn ascending_id_keys(m: Seq<SessionModel>) -> Seq<(int, int)> {
    Seq::new(m.len(), |e: int| (-(m[e].0 as int), 0int))
}

/// The positions of the sessions, smallest id first.
pub open spec fn id_order(m: Seq<SessionModel>) -> Seq<usize> {
    crate::order::sort_desc(crate::order::positions(m.len()), crate::order::seq_key(ascending_id_keys(m)))
}

/// The sessions come in `id_order` smallest id first.
pub proof fn lemma_id_order_ascending(m: Seq<SessionModel>)
    requires
        m.len() <= usize::MAX,
    ensures
        id_order(m).len() == m.len(),
        forall|k: int| 0 <= k < m.len() ==> #[trigger] id_order(m)[k] < m.len(),
        forall|a: int, b: int| 0 <= a < b < m.len() ==> m[#[trigger] id_order(m)[a] as int].0 <= m[#[trigger] id_order(m)[b] as int].0,
{
    let key = crate::order::seq_key(ascending_id_keys(m));
    crate::order::lemma_positions(m.len());
    crate::order::lemma_sort_desc_elements(crate::order::positions(m.len()), key);
    crate::order::lemma_sort_desc_sorted(crate::order::positions(m.len()), key);
    let o = id_order(m);
    assert forall|k: int| 0 <= k < m.len() implies #[trigger] o[k] < m.len() by {
        assert(o.contains(o[k]));
    }
    assert forall|a: int, b: int| 0 <= a < b < m.len() implies m[#[trigger] o[a] as int].0 <= m[#[trigger] o[b] as int].0 by {
        assert(o.contains(o[a]) && o.contains(o[b]));
        assert(!crate::order::key_lt(key(o[a]), key(o[b])));
    }
}

/// The demand for session `c`.
fn demand_for(students: &Vec<Student>, c: u16) -> (d: Demand)
    requires
        forall|i: int| 0 <= i < students@.len() ==> (#[trigger] students@[i]).grade >= 11 ==> students@[i].preferences@.len() <= NUM_PREFERENCES,
    ensures
        d.class_id == c,
        demand_counted(d, students@),
{
    let mut wanted: Vec<usize> = Vec::new();
    let mut granted: Vec<usize> = Vec::new();
    let mut r: usize = 0;
    while r < NUM_PREFERENCES
        invariant
            r <= NUM_PREFERENCES,
            wanted@.len() == r,
            granted@.len() == r,
            forall|x: int| 0 <= x < r ==> #[trigger] wanted@[x] == 0,
            forall|x: int| 0 <= x < r ==> #[trigger] granted@[x] == 0,
        decreases NUM_PREFERENCES - r,
    {
        wanted.push(0);
        granted.push(0);
        r = r + 1;
    }
    let n = students.len();
    let mut i: usize = 0;
    while i < n
        invariant
            i <= students@.len(),
            n == students@.len(),
            forall|j: int| 0 <= j < students@.len() ==> (#[trigger] students@[j]).grade >= 11 ==> students@[j].preferences@.len() <= NUM_PREFERENCES,
            wanted@.len() == NUM_PREFERENCES,
            granted@.len() == NUM_PREFERENCES,
            forall|x: int| 0 <= x < NUM_PREFERENCES ==> #[trigger] wanted@[x] == wanted_count(students@, c, x, i as int),
            forall|x: int| 0 <= x < NUM_PREFERENCES ==> #[trigger] granted@[x] == granted_count(students@, c, x, i as int),
        decreases students@.len() - i,
    {
        let st = &students[i];
        proof {
            assert forall|x: int| 0 <= x < NUM_PREFERENCES implies #[trigger] granted_count(students@, c, x, i as int)
                <= wanted_count(students@, c, x, i as int) <= i by {
                lemma_granted_at_most_wanted(students@, c, x, i as int);
            }
        }
        if st.grade >= 11 {
            let holds = crate::seq_util::contains_u16(&st.classes, c);
            let mut x: usize = 0;
            while x < st.preferences.len()
                invariant
                    x <= st.preferences@.len(),
                    st.preferences@.len() <= NUM_PREFERENCES,
                    st == students@[i as int],
                    st.grade >= 11,
                    holds == st.classes@.contains(c),
                    i < students@.len(),
                    n == students@.len(),
                    wanted@.len() == NUM_PREFERENCES,
                    granted@.len() == NUM_PREFERENCES,
                    forall|y: int| 0 <= y < NUM_PREFERENCES ==> #[trigger] wanted@[y] == (if y < x {
                        wanted_count(students@, c, y, i + 1)
                    } else {
                        wanted_count(students@, c, y, i as int)
                    }),
                    forall|y: int| 0 <= y < NUM_PREFERENCES ==> #[trigger] granted@[y] == (if y < x {
                        granted_count(students@, c, y, i + 1)
                    } else {
                        granted_count(students@, c, y, i as int)
                    }),
                    forall|y: int| 0 <= y < NUM_PREFERENCES ==> #[trigger] granted_count(students@, c, y, i as int)
                        <= wanted_count(students@, c, y, i as int) <= i,
                decreases st.preferences@.len() - x,
            {
                proof {
                    assert(wanted_count(students@, c, x as int, i + 1) == wanted_count(students@, c, x as int, i as int)
                        + if st.preferences@[x as int] == c { 1int } else { 0int });
                    assert(granted_count(students@, c, x as int, i + 1) == granted_count(students@, c, x as int, i as int)
                        + if st.preferences@[x as int] == c && holds { 1int } else { 0int });
                    assert(granted_count(students@, c, x as int, i as int) <= wanted_count(students@, c, x as int, i as int) <= i);
                }
                let ghost w0 = wanted@;
                let ghost g0 = granted@;
                if st.preferences[x] == c {
                    let w = wanted[x];
                    wanted.set(x, w + 1);
                    if holds {
                        let g = granted[x];
                        granted.set(x, g + 1);
                    }
                }
                proof {
                    assert(wanted@[x as int] == wanted_count(students@, c, x as int, i + 1));
                    assert(granted@[x as int] == granted_count(students@, c, x as int, i + 1));
                    assert(forall|y: int| 0 <= y < NUM_PREFERENCES && y != x ==> wanted@[y] == w0[y] && granted@[y] == g0[y]);
                }
                x = x + 1;
            }
        }
        proof {
            assert forall|y: int| 0 <= y < NUM_PREFERENCES implies #[trigger] wanted@[y] == wanted_count(students@, c, y, i + 1) by {
                if !(st.grade >= 11 && y < st.preferences@.len()) {
                    assert(wanted_count(students@, c, y, i + 1) == wanted_count(students@, c, y, i as int));
                }
            }
            assert forall|y: int| 0 <= y < NUM_PREFERENCES implies #[trigger] granted@[y] == granted_count(students@, c, y, i + 1) by {
                if !(st.grade >= 11 && y < st.preferences@.len()) {
                    assert(granted_count(students@, c, y, i + 1) == granted_count(students@, c, y, i as int));
                }
            }
        }
        i = i + 1;
    }
    let d = Demand { class_id: c, wanted, granted };
    assert(demand_counted(d, students@));
    d
}

/// The demand for every session among upper classmen, smallest id first.
/// Each upper classman names at most `NUM_PREFERENCES` preferences, one per
/// counted rank; younger students are not counted and may name more.
pub fn session_demand(schedule: &Schedule, students: &Vec<Student>) -> (r: Vec<Demand>)
    requires
        forall|i: int| 0 <= i < students@.len() ==> (#[trigger] students@[i]).grade >= 11 ==> students@[i].preferences@.len() <= NUM_PREFERENCES,
    ensures
        r@.len() == schedule@.len(),
        forall|k: int| 0 <= k < r@.len() ==> (#[trigger] r@[k]).class_id == schedule@[id_order(schedule@)[k] as int].0
            && demand_counted(r@[k], students@),
{
    let n = schedule.entries.len();
    let mut keys: Vec<(i128, i128)> = Vec::new();
    let mut e: usize = 0;
    while e < n
        invariant
            e <= n,
            n == schedule@.len(),
            keys@.len() == e,
            crate::order::int_keys(keys@) == ascending_id_keys(schedule@).take(e as int),
        decreases n - e,
    {
        assert(schedule@[e as int] == schedule.entries@[e as int]@);
        let ghost before = keys@;
        keys.push((0 - (schedule.entries[e].class_id as i128), 0i128));
        assert(crate::order::int_keys(keys@) =~= ascending_id_keys(schedule@).take(e + 1)) by {
            assert forall|q: int| 0 <= q < e + 1 implies #[trigger] crate::order::int_keys(keys@)[q] == ascending_id_keys(schedule@).take(e + 1)[q] by {
                if q < e {
                    assert(keys@[q] == before[q]);
                    assert(crate::order::int_keys(before)[q] == ascending_id_keys(schedule@).take(e as int)[q]);
                }
            }
        }
        e = e + 1;
    }
    assert(ascending_id_keys(schedule@).take(n as int) =~= ascending_id_keys(schedule@));
    let all = crate::order::position_list(n);
    let order = crate::order::sort_by_key_desc(&all, &keys);
    proof {
        crate::order::lemma_positions(n as nat);
        crate::order::lemma_sort_desc_elements(all@, crate::order::seq_key(crate::order::int_keys(keys@)));
        assert forall|k: int| 0 <= k < order@.len() implies #[trigger] order@[k] < n by {
            assert(order@.contains(order@[k]));
        }
    }
    let mut r: Vec<Demand> = Vec::new();
    let mut k: usize = 0;
    while k < order.len()
        invariant
            k <= order@.len(),
            order@.len() == n,
            n == schedule@.len(),
            order@ == id_order(schedule@),
            forall|j: int| 0 <= j < order@.len() ==> #[trigger] order@[j] < n,
            forall|i: int| 0 <= i < students@.len() ==> (#[trigger] students@[i]).grade >= 11 ==> students@[i].preferences@.len() <= NUM_PREFERENCES,
            r@.len() == k,
            forall|j: int| 0 <= j < k ==> (#[trigger] r@[j]).class_id == schedule@[id_order(schedule@)[j] as int].0
                && demand_counted(r@[j], students@),
        decreases order@.len() - k,
    {
        let e = order[k];
        assert(schedule@[e as int] == schedule.entries@[e as int]@);
        let d = demand_for(students, schedule.entries[e].class_id);
        let ghost before = r@;
        let ghost dv = d;
        r.push(d);
        assert(r@[k as int] == dv);
        assert(forall|j: int| 0 <= j < k ==> r@[j] == before[j]);
        k = k + 1;
    }
    r
}

/// How a preference rank of a session was served: everyone who wanted it
/// got it; more got it than wanted it at that rank; one short; or more.
#[derive(PartialEq, Eq, Structural, Clone, Copy, Debug)]
pub enum Placement {
    AllPlaced,
    MorePlaced,
    OneShort,
    Short,
}

/// How `granted` of `wanted` students were served (see `Placement`).
pub fn placement(wanted: usize, granted: usize) -> (p: Placement)
    ensures
        p == (if wanted == granted {
            Placement::AllPlaced
        } else if granted > wanted {
            Placement::MorePlaced
        } else if wanted != 0 && granted == wanted - 1 {
            Placement::OneShort
        } else {
            Placement::Short
        }),
{
    if wanted == granted {
        Placement::AllPlaced
    } else if granted > wanted {
        Placement::MorePlaced
    } else if wanted != 0 && granted == wanted - 1 {
        Placement::OneShort
    } else {
        Placement::Short
    }
}

} // verus!
