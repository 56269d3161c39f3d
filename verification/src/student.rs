//! A student, the order in which students are served, and the scores that
//! measure how well a student's sessions match their preferences.
use vstd::prelude::*;
use crate::seq_util::{position_of, find_position, contains_u16, contains_ref_u16, ref_list_contains};

verus! {

/// A student who signed up, with their ranked session preferences and the
/// session assigned to them in each period (`UNASSIGNED_CLASSS` while open).
#[derive(Debug)]
pub struct Student {
    pub timestamp: u64,
    pub first_name: String,
    pub last_name: String,
    pub homeroom: String,
    pub first_period: String,
    pub student_id: u32,
    pub grade: u8,
    pub preferences: Vec<u16>,
    pub classes: Vec<u16>,
}

/// The values of a student as the scheduler sees them.
pub struct StudentView {
    pub timestamp: u64,
    pub first_name: Seq<char>,
    pub last_name: Seq<char>,
    pub homeroom: Seq<char>,
    pub first_period: Seq<char>,
    pub student_id: u32,
    pub grade: u8,
    pub preferences: Seq<u16>,
    pub classes: Seq<u16>,
}

impl View for Student {
    type V = StudentView;

    open spec fn view(&self) -> StudentView {
        StudentView {
            timestamp: self.timestamp,
            first_name: self.first_name@,
            last_name: self.last_name@,
            homeroom: self.homeroom@,
            first_period: self.first_period@,
            student_id: self.student_id,
            grade: self.grade,
            preferences: self.preferences@,
            classes: self.classes@,
        }
    }
}

/// The views of a list of students.
pub open spec fn views(v: Seq<Student>) -> Seq<StudentView> {
    v.map_values(|s: Student| s@)
}

/// The student whose seniority is raised to that of a twelfth grader.
pub const HONORARY_SENIOR_ID: u32 = 1400515;

/// The priority tier of a student: it fills the top four bits of the order.
pub open spec fn priority_tier(grade: u8, student_id: u32) -> int {
    if grade == 12 || (grade == 11 && student_id == HONORARY_SENIOR_ID) {
        15
    } else if grade == 11 {
        7
    } else {
        0
    }
}

/// The serving order of a student: the tier in the top bits, then earlier
/// sign-ups (smaller timestamps) above later ones.
pub open spec fn order_value(grade: u8, student_id: u32, timestamp: u64, min_timestamp: u64) -> int {
    priority_tier(grade, student_id) * 0x1000_0000_0000_0000 + (0x0100_0000_0000_0000 - (timestamp - min_timestamp))
}

/// The number of preferences plus 2, as a `usize` sum (wrapping past the
/// largest `usize`).
pub open spec fn len_plus_two(n: int) -> int {
    if n + 2 > usize::MAX { n + 2 - (usize::MAX + 1) } else { n + 2 }
}

/// The preference rank of the session a student holds in a period, as
/// `move_score` counts it: its position taken as an `i32`, with first
/// choice -2, second -1, and not listed -2.
pub open spec fn current_rank(prefs: Seq<u16>, class_id: u16) -> int {
    let p: int = match position_of(prefs, class_id) {
        Some(i) => i as i32 as int,
        None => 0,
    };
    if p <= 1 { p - 2 } else { p }
}

/// The rank of the session a student would move to, as `move_score` counts
/// it: 6 when its id is within 2 of the current session's id, else its
/// position in the preferences, or the number of preferences plus 2, taken
/// as an `i32`.
pub open spec fn target_rank(prefs: Seq<u16>, current: u16, new_class_id: u16) -> int {
    if -2 <= new_class_id - current <= 2 {
        6
    } else {
        match position_of(prefs, new_class_id) {
            Some(i) => i as i32 as int,
            None => len_plus_two(prefs.len() as int) as i32 as int,
        }
    }
}

/// `num / den` (den > 0) rounded to the nearest integer, halves away from zero.
pub open spec fn round_half_away(num: int, den: int) -> int
    recommends
        den > 0,
{
    if num >= 0 {
        (2 * num + den) / (2 * den)
    } else {
        -((-2 * num + den) / (2 * den))
    }
}

/// `v` saturated to the range of `i32`.
pub open spec fn clamp_i32(v: int) -> int {
    if v > i32::MAX {
        i32::MAX as int
    } else if v < i32::MIN {
        i32::MIN as int
    } else {
        v
    }
}

/// The move score, exactly: twice the sum of the current rank, minus the
/// target rank, plus four times how far the current session's fill sits
/// past the midpoint between minimum and maximum, minus one for upper
/// classmen; rounded, halves away from zero, and saturated to `i32`. With
/// equal minimum and maximum the fill term is unbounded: the score is then
/// `i32::MAX`, `i32::MIN` or 0 as the current count is above, below or at
/// the minimum.
pub open spec fn move_score_value(
    prefs: Seq<u16>,
    current: u16,
    grade: u8,
    new_class_id: u16,
    num_students_curr: i32,
    min_students: i32,
    max_students: i32,
) -> int {
    let base = current_rank(prefs, current) - target_rank(prefs, current, new_class_id) - (if grade >= 11 { 1int } else { 0int });
    let n = num_students_curr - min_students;
    let d = max_students - min_students;
    if d == 0 {
        if n > 0 {
            i32::MAX as int
        } else if n < 0 {
            i32::MIN as int
        } else {
            0
        }
    } else if d > 0 {
        clamp_i32(round_half_away((2 * base - 4) * d + 8 * n, d))
    } else {
        clamp_i32(round_half_away(-((2 * base - 4) * d + 8 * n), -d))
    }
}

/// Rounding halves away from zero keeps order.
proof fn lemma_round_half_away_ordered(x: int, y: int, den: int)
    requires
        x <= y,
        den > 0,
    ensures
        round_half_away(x, den) <= round_half_away(y, den),
{
    if x >= 0 {
        vstd::arithmetic::div_mod::lemma_div_is_ordered(2 * x + den, 2 * y + den, 2 * den);
    } else if y < 0 {
        vstd::arithmetic::div_mod::lemma_div_is_ordered(-2 * y + den, -2 * x + den, 2 * den);
    } else {
        vstd::arithmetic::div_mod::lemma_div_pos_is_pos(-2 * x + den, 2 * den);
        vstd::arithmetic::div_mod::lemma_div_pos_is_pos(2 * y + den, 2 * den);
    }
}

/// A fuller current session never makes a move less attractive: when the
/// minimum is at most the maximum, the move score does not fall as the
/// number of students in the student's current session grows, all else
/// equal.
pub proof fn lemma_move_score_monotone(
    prefs: Seq<u16>,
    current: u16,
    grade: u8,
    new_class_id: u16,
    fewer: i32,
    more: i32,
    min_students: i32,
    max_students: i32,
)
    requires
        fewer <= more,
        min_students <= max_students,
    ensures
        move_score_value(prefs, current, grade, new_class_id, fewer, min_students, max_students)
            <= move_score_value(prefs, current, grade, new_class_id, more, min_students, max_students),
{
    let base = current_rank(prefs, current) - target_rank(prefs, current, new_class_id) - (if grade >= 11 { 1int } else { 0int });
    let d = max_students - min_students;
    if d > 0 {
        let x1 = (2 * base - 4) * d + 8 * (fewer - min_students);
        let x2 = (2 * base - 4) * d + 8 * (more - min_students);
        lemma_round_half_away_ordered(x1, x2, d);
    }
}

/// Students are served by tier, then by sign-up: a twelfth grader (or the
/// honorary senior) ranks by 0xf000_0000_0000_0000 plus the sign-up term, an
/// eleventh grader by 0x7000_0000_0000_0000 plus it, and every other student
/// by the sign-up term alone, 0x0100_0000_0000_0000 minus how long after the
/// earliest sign-up they signed up. So among the students below the
/// eleventh grade an earlier sign-up always ranks higher, whatever the grade.
pub proof fn lemma_sort_order_tiers(grade: u8, student_id: u32, timestamp: u64, min_timestamp: u64)
    ensures
        grade == 12 || (grade == 11 && student_id == HONORARY_SENIOR_ID) ==> order_value(grade, student_id, timestamp, min_timestamp)
            == 0xf000_0000_0000_0000 + 0x0100_0000_0000_0000 - (timestamp - min_timestamp),
        grade == 11 && student_id != HONORARY_SENIOR_ID ==> order_value(grade, student_id, timestamp, min_timestamp)
            == 0x7000_0000_0000_0000 + 0x0100_0000_0000_0000 - (timestamp - min_timestamp),
        grade < 11 || grade > 12 ==> order_value(grade, student_id, timestamp, min_timestamp)
            == 0x0100_0000_0000_0000 - (timestamp - min_timestamp),
{
}

/// Among students outside the eleventh and twelfth grades, the one who
/// signed up earlier ranks strictly higher, whatever their grades.
pub proof fn lemma_sort_order_earlier_first(
    grade1: u8,
    id1: u32,
    timestamp1: u64,
    grade2: u8,
    id2: u32,
    timestamp2: u64,
    min_timestamp: u64,
)
    requires
        grade1 < 11 || grade1 > 12,
        grade2 < 11 || grade2 > 12,
        timestamp1 < timestamp2,
    ensures
        order_value(grade1, id1, timestamp1, min_timestamp) > order_value(grade2, id2, timestamp2, min_timestamp),
{
    lemma_sort_order_tiers(grade1, id1, timestamp1, min_timestamp);
    lemma_sort_order_tiers(grade2, id2, timestamp2, min_timestamp);
}

/// How many of the first `k` preferences the student holds.
pub open spec fn held_before(prefs: Seq<u16>, classes: Seq<u16>, k: int) -> int
    decreases k,
{
    if k <= 0 {
        0
    } else {
        held_before(prefs, classes, k - 1) + if classes.contains(prefs[k - 1]) { 1int } else { 0int }
    }
}

/// The official points of the first `k` preferences: a preference earns
/// when the student holds it and holds fewer than one per period among the
/// preferences before it; it then earns the number of preferences minus
/// the preferences before it that the student does not hold.
pub open spec fn credited(prefs: Seq<u16>, classes: Seq<u16>, k: int) -> int
    decreases k,
{
    if k <= 0 {
        0
    } else {
        credited(prefs, classes, k - 1) + if classes.contains(prefs[k - 1]) && held_before(prefs, classes, k - 1) < classes.len() {
            prefs.len() - ((k - 1) - held_before(prefs, classes, k - 1))
        } else {
            0int
        }
    }
}

proof fn lemma_official_walk_credited(prefs: Seq<u16>, classes: Seq<u16>, n: int)
    requires
        0 <= n,
    ensures
        ({
            let s = official_walk(prefs, classes, n);
            let h = held_before(prefs, classes, n);
            &&& s.0 == credited(prefs, classes, n)
            &&& s.1 == if h < classes.len() { h } else { classes.len() as int }
            &&& h < classes.len() ==> s.2 == prefs.len() - (n - h)
        }),
    decreases n,
{
    if n > 0 {
        lemma_official_walk_credited(prefs, classes, n - 1);
    }
}

/// The earned official score is the sum, over the preferences in rank
/// order, of what each held preference earns while fewer than one
/// preference per period has been matched before it: the number of
/// preferences minus the preferences before it that the student does not
/// hold (see `credited`).
pub proof fn lemma_official_score_credits(prefs: Seq<u16>, classes: Seq<u16>)
    ensures
        official_walk(prefs, classes, prefs.len() as int).0 == credited(prefs, classes, prefs.len() as int),
{
    lemma_official_walk_credited(prefs, classes, prefs.len() as int);
}

/// The points a student earns for one assigned session: the number of
/// preferences minus the session's position among them, or -2 when the
/// session is not among them.
pub open spec fn session_points(prefs: Seq<u16>, class_id: u16) -> int {
    match position_of(prefs, class_id) {
        Some(i) => prefs.len() - i,
        None => -2,
    }
}

/// The satisfaction points of the first `k` assigned sessions.
pub open spec fn satisfaction_points(prefs: Seq<u16>, classes: Seq<u16>, k: int) -> int
    decreases k,
{
    if k <= 0 {
        0
    } else {
        satisfaction_points(prefs, classes, k - 1) + session_points(prefs, classes[k - 1])
    }
}

/// Every running total of a student's satisfaction points fits in an `i64`.
pub open spec fn points_fit(prefs: Seq<u16>, classes: Seq<u16>) -> bool {
    forall|k: int| 0 <= k <= classes.len() ==> i64::MIN <= #[trigger] satisfaction_points(prefs, classes, k) <= i64::MAX
}

/// The state of the official score after looking at the first `w`
/// preferences: (earned points, sessions matched, points a match is worth).
/// Each preference that the student holds earns its worth; each one they do
/// not hold lowers the worth of the next by one; the walk stops once every
/// period is matched.
pub open spec fn official_walk(prefs: Seq<u16>, classes: Seq<u16>, w: int) -> (int, int, int)
    decreases w,
{
    if w <= 0 {
        (0, 0, prefs.len() as int)
    } else {
        let prev = official_walk(prefs, classes, w - 1);
        if prev.1 >= classes.len() {
            prev
        } else if classes.contains(prefs[w - 1]) {
            (prev.0 + prev.2, prev.1 + 1, prev.2)
        } else {
            (prev.0, prev.1, prev.2 - 1)
        }
    }
}

proof fn lemma_official_walk_bounds(prefs: Seq<u16>, classes: Seq<u16>, w: int)
    requires
        0 <= w <= prefs.len(),
    ensures
        0 <= official_walk(prefs, classes, w).1 <= w,
        0 <= official_walk(prefs, classes, w).1 <= classes.len() || w == 0,
        prefs.len() - w <= official_walk(prefs, classes, w).2 <= prefs.len(),
        0 <= official_walk(prefs, classes, w).0 <= official_walk(prefs, classes, w).1 * prefs.len(),
    decreases w,
{
    if w > 0 {
        lemma_official_walk_bounds(prefs, classes, w - 1);
        let prev = official_walk(prefs, classes, w - 1);
        if prev.1 < classes.len() && classes.contains(prefs[w - 1]) {
            assert(prev.0 + prev.2 <= (prev.1 + 1) * prefs.len()) by (nonlinear_arith)
                requires
                    prev.0 <= prev.1 * prefs.len(),
                    prev.2 <= prefs.len(),
            ;
        }
    }
}

impl Student {
    /// The key by which students are served: higher values first.
    pub fn sort_order(&self, min_timestamp: u64) -> (order: u64)
        requires
            min_timestamp <= self.timestamp,
            self.timestamp - min_timestamp <= 0x0100_0000_0000_0000,
        ensures
            order == order_value(self.grade, self.student_id, self.timestamp, min_timestamp),
    {
        let mut order: u64 = 0;
        if self.grade == 12 {
            order = order | 0xf000_0000_0000_0000;
        } else if self.grade == 11 {
            order = order | 0x7000_0000_0000_0000;
        }
        proof {
            assert(0u64 | 0xf000_0000_0000_0000u64 == 0xf000_0000_0000_0000u64) by (bit_vector);
            assert(0u64 | 0x7000_0000_0000_0000u64 == 0x7000_0000_0000_0000u64) by (bit_vector);
        }
        let rest: u64 = 0x0100_0000_0000_0000 - (self.timestamp - min_timestamp);
        order = order + rest;
        if self.student_id == HONORARY_SENIOR_ID && self.grade == 11 {
            let before = order;
            order = order | 0xf000_0000_0000_0000;
            proof {
                assert(before == 0x7000_0000_0000_0000u64 + rest);
                assert(before | 0xf000_0000_0000_0000u64 == 0xf000_0000_0000_0000u64 + rest) by (bit_vector)
                    requires
                        rest <= 0x0100_0000_0000_0000u64,
                        before == 0x7000_0000_0000_0000u64 + rest,
                ;
            }
        }
        order
    }

    /// How strongly this student should be moved into `new_class_id` in
    /// `period`, for filling an under-subscribed session; higher moves first.
    /// Middle schoolers (grade 8 or lower) get -1000 for a prohibited session.
    pub fn move_score(
        &self,
        new_class_id: u16,
        period: usize,
        num_students_curr: i32,
        min_students: i32,
        max_students: i32,
        middle_school_prohibited_classes: &[&u16],
    ) -> (score: i32)
        requires
            period < self.classes.len(),
            i32::MIN <= num_students_curr - min_students <= i32::MAX,
            i32::MIN <= max_students - min_students <= i32::MAX,
        ensures
            score == if self.grade <= 8 && ref_list_contains(middle_school_prohibited_classes@, new_class_id) {
                -1000
            } else {
                move_score_value(
                    self.preferences@,
                    self.classes@[period as int],
                    self.grade,
                    new_class_id,
                    num_students_curr,
                    min_students,
                    max_students,
                )
            },
    {
        if self.grade <= 8 && contains_ref_u16(middle_school_prohibited_classes, new_class_id) {
            return -1000;
        }
        let current = self.classes[period];
        let cur_pos: i64 = match find_position(&self.preferences, current) {
            Some(i) => i as i32 as i64,
            None => 0,
        };
        let cur_rank: i64 = if cur_pos <= 1 { cur_pos - 2 } else { cur_pos };
        let diff: i64 = new_class_id as i64 - current as i64;
        let target: i64 = if -2 <= diff && diff <= 2 {
            6
        } else {
            match find_position(&self.preferences, new_class_id) {
                Some(i) => i as i32 as i64,
                None => self.preferences.len().wrapping_add(2) as i32 as i64,
            }
        };
        let senior: i64 = if self.grade >= 11 { 1 } else { 0 };
        let base: i64 = cur_rank - target - senior;
        let n: i64 = num_students_curr as i64 - min_students as i64;
        let d: i64 = max_students as i64 - min_students as i64;
        let ghost gbase: int = current_rank(self.preferences@, current) - target_rank(self.preferences@, current, new_class_id) - (if self.grade >= 11 { 1int } else { 0int });
        assert(base == gbase);
        if d == 0 {
            if n > 0 {
                return i32::MAX;
            } else if n < 0 {
                return i32::MIN;
            } else {
                return 0;
            }
        }
        let b2: i128 = 2 * (base as i128) - 4;
        assert(-0x4_0000_0000 <= b2 <= 0x4_0000_0000);
        assert(-0x1_0000_0000 <= d <= 0x1_0000_0000);
        proof {
            assert(-0x4_0000_0000_0000_0000 <= b2 * d <= 0x4_0000_0000_0000_0000) by (nonlinear_arith)
                requires
                    -0x4_0000_0000 <= b2 <= 0x4_0000_0000,
                    -0x1_0000_0000 <= d <= 0x1_0000_0000,
            ;
        }
        let prod: i128 = b2 * (d as i128);
        let mut num: i128 = prod + 8 * (n as i128);
        let mut den: i128 = d as i128;
        if den < 0 {
            num = -num;
            den = -den;
        }
        let rounded: i128 = if num >= 0 {
            (2 * num + den) / (2 * den)
        } else {
            -((-2 * num + den) / (2 * den))
        };
        if rounded > i32::MAX as i128 {
            i32::MAX
        } else if rounded < i32::MIN as i128 {
            i32::MIN
        } else {
            rounded as i32
        }
    }

    /// The student's satisfaction with their assigned sessions, in points:
    /// the sum over assigned sessions of the number of preferences minus the
    /// session's position among them (-2 for a session not preferred).
    pub fn satisfaction(&self) -> (points: i64)
        requires
            forall|i: int| 0 <= i < self.classes@.len() ==> self.classes@[i] != crate::UNASSIGNED_CLASSS,
            self.preferences@.len() <= i64::MAX,
            points_fit(self.preferences@, self.classes@),
        ensures
            points == satisfaction_points(self.preferences@, self.classes@, self.classes@.len() as int),
    {
        let mut total: i64 = 0;
        let mut k: usize = 0;
        let len: i64 = self.preferences.len() as i64;
        while k < self.classes.len()
            invariant
                k <= self.classes.len(),
                len == self.preferences@.len(),
                points_fit(self.preferences@, self.classes@),
                total == satisfaction_points(self.preferences@, self.classes@, k as int),
            decreases self.classes.len() - k,
        {
            assert(i64::MIN <= satisfaction_points(self.preferences@, self.classes@, k + 1) <= i64::MAX);
            let pts: i64 = match find_position(&self.preferences, self.classes[k]) {
                Some(p) => len - p as i64,
                None => -2,
            };
            total = total + pts;
            k = k + 1;
        }
        total
    }

    /// The official score as a fraction `(earned, perfect)`; the percentage is
    /// `100 * earned / perfect`. Preferences are walked in rank order: each one
    /// the student holds earns the current worth, which starts at the number
    /// of preferences and drops by one for each preference they missed; the
    /// perfect score is that starting worth for every period.
    pub fn official_score(&self) -> (r: (u64, u64))
        requires
            self.classes@.len() * self.preferences@.len() <= u64::MAX,
        ensures
            r.0 == official_walk(self.preferences@, self.classes@, self.preferences@.len() as int).0,
            r.1 == self.classes@.len() * self.preferences@.len(),
            r.0 <= r.1,
    {
        let plen: u64 = self.preferences.len() as u64;
        let clen: u64 = self.classes.len() as u64;
        let perfect: u64 = clen * plen;
        let mut worth: u64 = plen;
        let mut earned: u64 = 0;
        let mut matched: usize = 0;
        let mut w: usize = 0;
        while w < self.preferences.len() && matched < self.classes.len()
            invariant
                w <= self.preferences.len(),
                plen == self.preferences@.len(),
                clen == self.classes@.len(),
                clen * plen <= u64::MAX,
                matched <= self.classes.len(),
                official_walk(self.preferences@, self.classes@, w as int) == (earned as int, matched as int, worth as int),
            decreases self.preferences.len() - w,
        {
            proof {
                lemma_official_walk_bounds(self.preferences@, self.classes@, w as int);
                assert(earned + worth <= (matched + 1) * plen) by (nonlinear_arith)
                    requires
                        earned <= matched * plen,
                        worth <= plen,
                ;
                assert((matched + 1) * plen <= clen * plen) by (nonlinear_arith)
                    requires
                        matched + 1 <= clen,
                ;
            }
            let session = self.preferences[w];
            w = w + 1;
            if contains_u16(&self.classes, session) {
                matched = matched + 1;
                earned = earned + worth;
            } else {
                worth = worth - 1;
            }
        }
        proof {
            lemma_official_walk_stops(self.preferences@, self.classes@, w as int);
            lemma_official_walk_bounds(self.preferences@, self.classes@, self.preferences@.len() as int);
            let fin = official_walk(self.preferences@, self.classes@, self.preferences@.len() as int);
            if self.preferences@.len() > 0 {
                assert(fin.0 <= clen * plen) by (nonlinear_arith)
                    requires
                        fin.0 <= fin.1 * plen,
                        0 <= fin.1 <= clen,
                        0 <= plen;
            }
        }
        (earned, perfect)
    }
}

/// Once every period is matched, the walk changes nothing more.
proof fn lemma_official_walk_stops(prefs: Seq<u16>, classes: Seq<u16>, w: int)
    requires
        0 <= w <= prefs.len(),
        official_walk(prefs, classes, w).1 >= classes.len() || w == prefs.len(),
    ensures
        official_walk(prefs, classes, prefs.len() as int) == official_walk(prefs, classes, w),
    decreases prefs.len() - w,
{
    if w < prefs.len() {
        assert(official_walk(prefs, classes, w + 1) == official_walk(prefs, classes, w));
        lemma_official_walk_stops(prefs, classes, w + 1);
    }
}

} // verus!
