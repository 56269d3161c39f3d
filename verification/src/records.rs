//! Reading the two tables, the sign-ups and the sessions, from the bytes of
//! their CSV files: the `csv` crate splits the bytes into records, each
//! record is a row given as its list of fields, and every field loses its
//! leading white space before it is read.
use vstd::prelude::*;
use crate::text::{trimmed, unsigned_numeral, within, occurs_in, trim_start, parse_unsigned, parse_i32, contains_text};
use crate::student::{Student, StudentView, views};
use crate::input::{Class, ClassOutput};
use crate::{NUM_PREFERENCES, MISSING_PREFERENCE, UNASSIGNED_CLASSS, NUM_PERIODS};

verus! {

/// Why a table could not be read.
#[derive(PartialEq, Eq, Structural, Clone, Copy, Debug)]
pub enum ReadError {
    /// The row lacks a field it needs (the field's position).
    MissingField { row: usize, field: usize },
    /// The student id of a sign-up row is not a `u32`.
    StudentId { row: usize },
    /// The grade of a sign-up row is not a `u8`.
    Grade { row: usize },
    /// A preference of a sign-up row is not a `u16` (the field's position).
    Preference { row: usize, field: usize },
    /// The number of sessions is not a `u16`.
    SessionCount { row: usize },
    /// The minimum number of students is not an `i32`.
    MinStudents { row: usize },
    /// The maximum number of students is not an `i32`.
    MaxStudents { row: usize },
    /// The id of a session row is not a `u16`.
    SessionId { row: usize },
    /// No minimum number of students was given.
    MissingMinimum,
    /// The maximum number of students is neither -1 (unlimited) nor positive.
    InvalidMaximum,
    /// The file is not CSV text that the reader accepts: a record is not
    /// valid UTF-8.
    Malformed,
}

/// The rows as text.
pub open spec fn rows_text(records: Seq<Vec<String>>) -> Seq<Seq<Seq<char>>> {
    records.map_values(|r: Vec<String>| r@.map_values(|f: String| f@))
}

/// A row's fields without their leading white space.
pub open spec fn row_fields(r: Seq<Seq<char>>) -> Seq<Seq<char>> {
    r.map_values(|f: Seq<char>| trimmed(f))
}

/// A sign-up row has at least eight fields and a timestamp (a `u64`) first;
/// other rows are headers or notes.
pub open spec fn is_signup_row(t: Seq<Seq<char>>) -> bool {
    t.len() >= 8 && within(unsigned_numeral(t[0]), 0, u64::MAX as int) is Some
}

/// The preference fields of a sign-up row: from the eighth field on, without
/// the last one when there are more than `NUM_PREFERENCES` of them.
pub open spec fn preference_fields(t: Seq<Seq<char>>) -> Seq<Seq<char>> {
    if t.len() > 7 + NUM_PREFERENCES {
        t.subrange(7, t.len() - 1)
    } else {
        t.subrange(7, t.len() as int)
    }
}

/// The first `n` preference fields as session ids.
pub open spec fn preferences_upto(f: Seq<Seq<char>>, n: int, row: int) -> Result<Seq<u16>, ReadError>
    decreases n,
{
    if n <= 0 {
        Ok(Seq::empty())
    } else {
        match preferences_upto(f, n - 1, row) {
            Err(e) => Err(e),
            Ok(p) => match within(unsigned_numeral(f[n - 1]), 0, u16::MAX as int) {
                Some(v) => Ok(p.push(v as u16)),
                None => Err(ReadError::Preference { row: row as usize, field: (7 + n - 1) as usize }),
            },
        }
    }
}

proof fn lemma_preferences_error(f: Seq<Seq<char>>, n: int, n2: int, row: int, e: ReadError)
    requires
        0 <= n <= n2,
        preferences_upto(f, n, row) == Err::<Seq<u16>, ReadError>(e),
    ensures
        preferences_upto(f, n2, row) == Err::<Seq<u16>, ReadError>(e),
    decreases n2,
{
    if n2 > n {
        lemma_preferences_error(f, n, n2 - 1, row, e);
    }
}

proof fn lemma_signups_error(rows: Seq<Seq<Seq<char>>>, n: int, n2: int, e: ReadError)
    requires
        0 <= n <= n2,
        signups_upto(rows, n) == Err::<Seq<StudentView>, ReadError>(e),
    ensures
        signups_upto(rows, n2) == Err::<Seq<StudentView>, ReadError>(e),
    decreases n2,
{
    if n2 > n {
        lemma_signups_error(rows, n, n2 - 1, e);
    }
}

/// The preferences, filled up to `NUM_PREFERENCES` with empty ones.
pub open spec fn padded(p: Seq<u16>) -> Seq<u16> {
    if p.len() < NUM_PREFERENCES {
        p + Seq::new((NUM_PREFERENCES - p.len()) as nat, |i: int| MISSING_PREFERENCE)
    } else {
        p
    }
}

/// The student of a sign-up row: timestamp, first name, last name,
/// homeroom, first period, student id, grade, then the preferences; every
/// period still open.
pub open spec fn signup(t: Seq<Seq<char>>, row: int) -> Result<StudentView, ReadError> {
    match within(unsigned_numeral(t[5]), 0, u32::MAX as int) {
        None => Err(ReadError::StudentId { row: row as usize }),
        Some(id) => match within(unsigned_numeral(t[6]), 0, u8::MAX as int) {
            None => Err(ReadError::Grade { row: row as usize }),
            Some(g) => match preferences_upto(preference_fields(t), preference_fields(t).len() as int, row) {
                Err(e) => Err(e),
                Ok(p) => Ok(StudentView {
                    timestamp: unsigned_numeral(t[0])->0 as u64,
                    first_name: t[1],
                    last_name: t[2],
                    homeroom: t[3],
                    first_period: t[4],
                    student_id: id as u32,
                    grade: g as u8,
                    preferences: padded(p),
                    classes: Seq::new(NUM_PERIODS as nat, |i: int| UNASSIGNED_CLASSS),
                }),
            },
        },
    }
}

/// The students of the first `n` rows.
pub open spec fn signups_upto(rows: Seq<Seq<Seq<char>>>, n: int) -> Result<Seq<StudentView>, ReadError>
    decreases n,
{
    if n <= 0 {
        Ok(Seq::empty())
    } else {
        match signups_upto(rows, n - 1) {
            Err(e) => Err(e),
            Ok(sv) => {
                let t = row_fields(rows[n - 1]);
                if is_signup_row(t) {
                    match signup(t, n - 1) {
                        Ok(st) => Ok(sv.push(st)),
                        Err(e) => Err(e),
                    }
                } else {
                    Ok(sv)
                }
            },
        }
    }
}

/// A row's fields without their leading white space.
fn trim_fields(record: &Vec<String>) -> (t: Vec<String>)
    ensures
        t@.map_values(|f: String| f@) == row_fields(record@.map_values(|f: String| f@)),
{
    let mut t: Vec<String> = Vec::new();
    let mut k: usize = 0;
    while k < record.len()
        invariant
            k <= record@.len(),
            t@.len() == k,
            forall|j: int| 0 <= j < k ==> (#[trigger] t@[j])@ == trimmed(record@[j]@),
        decreases record@.len() - k,
    {
        let f = trim_start(record[k].as_str());
        t.push(f);
        k = k + 1;
    }
    assert(t@.map_values(|f: String| f@) =~= row_fields(record@.map_values(|f: String| f@)));
    t
}

/// The session ids of the preference fields `from..to` of row `row`.
fn read_preferences(t: &Vec<String>, from: usize, to: usize, row: usize) -> (r: Result<Vec<u16>, ReadError>)
    requires
        from == 7,
        from <= to <= t@.len(),
    ensures
        ({
            let f = t@.map_values(|x: String| x@).subrange(from as int, to as int);
            match preferences_upto(f, f.len() as int, row as int) {
                Ok(p) => r matches Ok(v) && v@ == p,
                Err(e) => r == Err::<Vec<u16>, ReadError>(e),
            }
        }),
{
    let ghost f = t@.map_values(|x: String| x@).subrange(from as int, to as int);
    let mut p: Vec<u16> = Vec::new();
    let mut k: usize = from;
    while k < to
        invariant
            from == 7,
            from <= k <= to <= t@.len(),
            f == t@.map_values(|x: String| x@).subrange(from as int, to as int),
            preferences_upto(f, k - from, row as int) == Ok::<Seq<u16>, ReadError>(p@),
        decreases to - k,
    {
        assert(f[k - from] == t@[k as int]@);
        match parse_unsigned(t[k].as_str(), 0xffff) {
            Some(v) => {
                p.push(v as u16);
            },
            None => {
                proof {
                    lemma_preferences_error(f, k + 1 - from, f.len() as int, row as int,
                        ReadError::Preference { row, field: k });
                }
                return Err(ReadError::Preference { row, field: k });
            },
        }
        k = k + 1;
    }
    Ok(p)
}

/// The student of a sign-up row (see `signup`).
fn read_signup(t: Vec<String>, row: usize) -> (r: Result<Student, ReadError>)
    requires
        is_signup_row(t@.map_values(|x: String| x@)),
    ensures
        match signup(t@.map_values(|x: String| x@), row as int) {
            Ok(st) => r matches Ok(s) && s@ == st,
            Err(e) => r == Err::<Student, ReadError>(e),
        },
{
    let ghost tv = t@.map_values(|x: String| x@);
    assert(tv[0] == t@[0]@ && tv[5] == t@[5]@ && tv[6] == t@[6]@);
    let timestamp = match parse_unsigned(t[0].as_str(), u64::MAX) {
        Some(v) => v,
        None => {
            assert(false);
            0
        },
    };
    let student_id = match parse_unsigned(t[5].as_str(), 0xffff_ffff) {
        Some(v) => v as u32,
        None => {
            return Err(ReadError::StudentId { row });
        },
    };
    let grade = match parse_unsigned(t[6].as_str(), 0xff) {
        Some(v) => v as u8,
        None => {
            return Err(ReadError::Grade { row });
        },
    };
    let n = t.len();
    let to = if n > 7 + NUM_PREFERENCES { n - 1 } else { n };
    assert(preference_fields(tv) == t@.map_values(|x: String| x@).subrange(7, to as int));
    let mut preferences = match read_preferences(&t, 7, to, row) {
        Ok(p) => p,
        Err(e) => {
            return Err(e);
        },
    };
    let ghost read = preferences@;
    while preferences.len() < NUM_PREFERENCES
        invariant
            read.len() <= preferences@.len() <= NUM_PREFERENCES || preferences@ == read,
            preferences@.len() >= read.len(),
            preferences@.subrange(0, read.len() as int) == read,
            forall|j: int| read.len() <= j < preferences@.len() ==> #[trigger] preferences@[j] == MISSING_PREFERENCE,
        decreases NUM_PREFERENCES - preferences@.len(),
    {
        preferences.push(MISSING_PREFERENCE);
    }
    assert(preferences@ =~= padded(read)) by {
        if read.len() < NUM_PREFERENCES {
            assert(preferences@.len() == NUM_PREFERENCES);
            assert forall|j: int| 0 <= j < preferences@.len() implies #[trigger] preferences@[j] == padded(read)[j] by {
                if j < read.len() {
                    assert(preferences@[j] == preferences@.subrange(0, read.len() as int)[j]);
                }
            }
        } else {
            assert(preferences@ =~= preferences@.subrange(0, read.len() as int));
        }
    }
    let mut classes: Vec<u16> = Vec::new();
    let mut p: u16 = 0;
    while p < NUM_PERIODS
        invariant
            p <= NUM_PERIODS,
            classes@ == Seq::new(p as nat, |i: int| UNASSIGNED_CLASSS),
        decreases NUM_PERIODS - p,
    {
        classes.push(UNASSIGNED_CLASSS);
        p = p + 1;
        assert(classes@ =~= Seq::new(p as nat, |i: int| UNASSIGNED_CLASSS));
    }
    let mut t = t;
    let first_period = t.remove(4);
    let homeroom = t.remove(3);
    let last_name = t.remove(2);
    let first_name = t.remove(1);
    Ok(Student {
        timestamp,
        first_name,
        last_name,
        homeroom,
        first_period,
        student_id,
        grade,
        preferences,
        classes,
    })
}

/// Reads the students from the rows of the sign-up table: rows with at
/// least eight fields and a timestamp first are sign-ups (see `signup`),
/// the others are skipped. The first field that cannot be read is reported.
fn read_student_rows(records: &Vec<Vec<String>>) -> (r: Result<Vec<Student>, ReadError>)
    ensures
        match signups_upto(rows_text(records@), records@.len() as int) {
            Ok(sv) => r matches Ok(v) && views(v@) == sv,
            Err(e) => r == Err::<Vec<Student>, ReadError>(e),
        },
{
    let ghost rows = rows_text(records@);
    let mut students: Vec<Student> = Vec::new();
    assert(views(students@) =~= Seq::<StudentView>::empty());
    let mut k: usize = 0;
    while k < records.len()
        invariant
            k <= records@.len(),
            rows == rows_text(records@),
            signups_upto(rows, k as int) == Ok::<Seq<StudentView>, ReadError>(views(students@)),
        decreases records@.len() - k,
    {
        let t = trim_fields(&records[k]);
        assert(rows[k as int] == records@[k as int]@.map_values(|f: String| f@));
        let ghost tv = t@.map_values(|x: String| x@);
        let is_row = t.len() >= 8 && parse_unsigned(t[0].as_str(), u64::MAX).is_some();
        proof {
            if t@.len() >= 8 {
                assert(tv[0] == t@[0]@);
            }
        }
        if is_row {
            match read_signup(t, k) {
                Ok(s) => {
                    students.push(s);
                    assert(views(students@) =~= signups_upto(rows, k as int)->Ok_0.push(s@));
                },
                Err(e) => {
                    proof {
                        lemma_signups_error(rows, k + 1, records@.len() as int, e);
                    }
                    return Err(e);
                },
            }
        }
        k = k + 1;
    }
    Ok(students)
}

/// The session table as read so far: the number of sessions (`u16::MAX`
/// while not given), the minimum and maximum numbers of students per
/// session (-1 while not given), and the sessions as (id, subject, teacher,
/// presenter).
pub type TableState = (u16, i32, i32, Seq<(u16, Seq<char>, Seq<char>, Seq<char>)>);

/// The table state of a session list.
pub open spec fn table_state(c: ClassOutput) -> TableState {
    (c.num_sessions, c.min_students, c.max_students,
        c.classes@.map_values(|k: Class| (k.id, k.subject@, k.teacher@, k.presenter@)))
}

/// The state before any row is read.
pub open spec fn empty_table() -> TableState {
    (u16::MAX, -1i32, -1i32, Seq::empty())
}

/// The lowercase form of a text, as `str::to_lowercase` gives it.
pub uninterp spec fn lowercase(s: Seq<char>) -> Seq<char>;

/// Calls `str::to_lowercase`; the contract names its result `lowercase` of
/// the input and claims nothing more of it.
#[verifier::external_body]
fn to_lowercase(s: &str) -> (r: String)
    ensures
        r@ == lowercase(s@),
{
    s.to_lowercase()
}

/// The first field, in lowercase, names a setting by both words.
pub open spec fn names_setting(lower: Seq<char>, a: Seq<char>, b: Seq<char>) -> bool {
    occurs_in(lower, a) && occurs_in(lower, b)
}

/// The second field is a `u32`.
pub open spec fn second_is_u32(t: Seq<Seq<char>>) -> bool {
    t.len() >= 2 && within(unsigned_numeral(t[1]), 0, u32::MAX as int) is Some
}

/// One row of the session table, given its first field in lowercase: a
/// setting row (the number of sessions, the minimum or the maximum number
/// of students) when its first field names the setting and its second is a
/// `u32`; else a session row when it has at least four fields and its first
/// is an `i32`; else it is skipped.
pub open spec fn table_row(st: TableState, t: Seq<Seq<char>>, lower: Seq<char>, row: int) -> Result<TableState, ReadError> {
    let r = row as usize;
    if t.len() == 0 {
        Err(ReadError::MissingField { row: r, field: 0 })
    } else if names_setting(lower, "num"@, "sessions"@) && t.len() < 2 {
        Err(ReadError::MissingField { row: r, field: 1 })
    } else if names_setting(lower, "num"@, "sessions"@) && second_is_u32(t) {
        match within(unsigned_numeral(t[1]), 0, u16::MAX as int) {
            Some(v) => Ok((v as u16, st.1, st.2, st.3)),
            None => Err(ReadError::SessionCount { row: r }),
        }
    } else if names_setting(lower, "min"@, "students"@) && t.len() < 2 {
        Err(ReadError::MissingField { row: r, field: 1 })
    } else if names_setting(lower, "min"@, "students"@) && second_is_u32(t) {
        match within(unsigned_numeral(t[1]), 0, i32::MAX as int) {
            Some(v) => Ok((st.0, v as i32, st.2, st.3)),
            None => Err(ReadError::MinStudents { row: r }),
        }
    } else if names_setting(lower, "max"@, "students"@) && t.len() < 2 {
        Err(ReadError::MissingField { row: r, field: 1 })
    } else if names_setting(lower, "max"@, "students"@) && second_is_u32(t) {
        match within(unsigned_numeral(t[1]), 0, i32::MAX as int) {
            Some(v) => Ok((st.0, st.1, v as i32, st.3)),
            None => Err(ReadError::MaxStudents { row: r }),
        }
    } else if t.len() >= 4 && within(crate::text::signed_numeral(t[0]), i32::MIN as int, i32::MAX as int) is Some {
        match within(unsigned_numeral(t[0]), 0, u16::MAX as int) {
            Some(id) => Ok((st.0, st.1, st.2, st.3.push((id as u16, t[1], t[2], t[3])))),
            None => Err(ReadError::SessionId { row: r }),
        }
    } else {
        Ok(st)
    }
}

/// The session table after its first `n` rows.
pub open spec fn tables_upto(rows: Seq<Seq<Seq<char>>>, n: int) -> Result<TableState, ReadError>
    decreases n,
{
    if n <= 0 {
        Ok(empty_table())
    } else {
        match tables_upto(rows, n - 1) {
            Err(e) => Err(e),
            Ok(st) => {
                let t = row_fields(rows[n - 1]);
                table_row(st, t, if t.len() > 0 { lowercase(t[0]) } else { Seq::empty() }, n - 1)
            },
        }
    }
}

/// The finished table: without a number of sessions, the number of sessions
/// read (as a `u16`); the minimum must be given, and the maximum must be -1
/// (unlimited) or positive.
pub open spec fn finish_table(st: TableState) -> Result<TableState, ReadError> {
    let num = if st.0 == u16::MAX { st.3.len() as u16 } else { st.0 };
    if st.1 < 0 {
        Err(ReadError::MissingMinimum)
    } else if !(st.2 == -1 || st.2 > 0) {
        Err(ReadError::InvalidMaximum)
    } else {
        Ok((num, st.1, st.2, st.3))
    }
}

/// Reads one row of the session table into `output`, given the row's
/// fields (without leading white space) and its first field in lowercase
/// (see `table_row`).
fn read_table_row(output: &mut ClassOutput, t: Vec<String>, lower: &str, row: usize) -> (r: Result<(), ReadError>)
    ensures
        match table_row(table_state(*old(output)), t@.map_values(|x: String| x@), lower@, row as int) {
            Ok(st) => r is Ok && table_state(*final(output)) == st,
            Err(e) => r == Err::<(), ReadError>(e),
        },
{
    let ghost tv = t@.map_values(|x: String| x@);
    let ghost st = table_state(*output);
    if t.len() == 0 {
        return Err(ReadError::MissingField { row, field: 0 });
    }
    assert(tv[0] == t@[0]@);
    let second_u32 = t.len() >= 2 && parse_unsigned(t[1].as_str(), 0xffff_ffff).is_some();
    proof {
        if t@.len() >= 2 {
            assert(tv[1] == t@[1]@);
        }
    }
    let sessions = contains_text(lower, "num") && contains_text(lower, "sessions");
    if sessions && t.len() < 2 {
        return Err(ReadError::MissingField { row, field: 1 });
    }
    if sessions && second_u32 {
        match parse_unsigned(t[1].as_str(), 0xffff) {
            Some(v) => {
                output.num_sessions = v as u16;
                return Ok(());
            },
            None => {
                return Err(ReadError::SessionCount { row });
            },
        }
    }
    let minimum = contains_text(lower, "min") && contains_text(lower, "students");
    if minimum && t.len() < 2 {
        return Err(ReadError::MissingField { row, field: 1 });
    }
    if minimum && second_u32 {
        match parse_unsigned(t[1].as_str(), 0x7fff_ffff) {
            Some(v) => {
                output.min_students = v as i32;
                return Ok(());
            },
            None => {
                return Err(ReadError::MinStudents { row });
            },
        }
    }
    let maximum = contains_text(lower, "max") && contains_text(lower, "students");
    if maximum && t.len() < 2 {
        return Err(ReadError::MissingField { row, field: 1 });
    }
    if maximum && second_u32 {
        match parse_unsigned(t[1].as_str(), 0x7fff_ffff) {
            Some(v) => {
                output.max_students = v as i32;
                return Ok(());
            },
            None => {
                return Err(ReadError::MaxStudents { row });
            },
        }
    }
    if t.len() >= 4 && parse_i32(t[0].as_str()).is_some() {
        match parse_unsigned(t[0].as_str(), 0xffff) {
            Some(id) => {
                let mut t = t;
                let presenter = t.remove(3);
                let teacher = t.remove(2);
                let subject = t.remove(1);
                assert(presenter@ == tv[3] && teacher@ == tv[2] && subject@ == tv[1]);
                output.classes.push(Class { id: id as u16, subject, teacher, presenter });
                assert(table_state(*output).3 =~= st.3.push((id as u16, tv[1], tv[2], tv[3])));
                return Ok(());
            },
            None => {
                return Err(ReadError::SessionId { row });
            },
        }
    }
    Ok(())
}

proof fn lemma_tables_error(rows: Seq<Seq<Seq<char>>>, n: int, n2: int, e: ReadError)
    requires
        0 <= n <= n2,
        tables_upto(rows, n) == Err::<TableState, ReadError>(e),
    ensures
        tables_upto(rows, n2) == Err::<TableState, ReadError>(e),
    decreases n2,
{
    if n2 > n {
        lemma_tables_error(rows, n, n2 - 1, e);
    }
}

/// Reads the session list and its settings from the rows of the session
/// table (see `table_row` and `finish_table`). The first row that cannot be
/// read is reported.
fn read_class_rows(records: &Vec<Vec<String>>) -> (r: Result<ClassOutput, ReadError>)
    ensures
        match tables_upto(rows_text(records@), records@.len() as int) {
            Ok(st) => match finish_table(st) {
                Ok(done) => r matches Ok(c) && table_state(c) == done,
                Err(e) => r == Err::<ClassOutput, ReadError>(e),
            },
            Err(e) => r == Err::<ClassOutput, ReadError>(e),
        },
{
    let ghost rows = rows_text(records@);
    let mut output = ClassOutput { num_sessions: u16::MAX, min_students: -1, max_students: -1, classes: Vec::new() };
    assert(table_state(output) =~= empty_table());
    let mut k: usize = 0;
    while k < records.len()
        invariant
            k <= records@.len(),
            rows == rows_text(records@),
            tables_upto(rows, k as int) == Ok::<TableState, ReadError>(table_state(output)),
        decreases records@.len() - k,
    {
        let t = trim_fields(&records[k]);
        assert(rows[k as int] == records@[k as int]@.map_values(|f: String| f@));
        let ghost tv = t@.map_values(|x: String| x@);
        let lower = if t.len() > 0 {
            assert(tv[0] == t@[0]@);
            to_lowercase(t[0].as_str())
        } else {
            String::new()
        };
        match read_table_row(&mut output, t, lower.as_str(), k) {
            Ok(()) => {},
            Err(e) => {
                proof {
                    lemma_tables_error(rows, k + 1, records@.len() as int, e);
                }
                return Err(e);
            },
        }
        k = k + 1;
    }
    if output.min_students < 0 {
        return Err(ReadError::MissingMinimum);
    }
    if !(output.max_students == -1 || output.max_students > 0) {
        return Err(ReadError::InvalidMaximum);
    }
    if output.num_sessions == u16::MAX {
        output.num_sessions = output.classes.len() as u16;
    }
    Ok(output)
}

/// The records that the `csv` crate reads from a file's bytes with the
/// reader that both tables are read with (`ReaderBuilder::new()` with
/// `flexible(true)`, so the first row is the header and is not yielded,
/// and rows may differ in length): each record as its list of fields, or
/// `None` where the reader reports an error.
pub uninterp spec fn csv_records(bytes: Seq<u8>) -> Option<Seq<Seq<Seq<char>>>>;

/// Calls the `csv` crate: `ReaderBuilder::new().flexible(true)
/// .from_reader(bytes)`, then `Reader::records`, taking each
/// `StringRecord`'s fields as `String`s and stopping at the first error.
/// The contract claims only that the records, or the error, are those that
/// the crate yields for the bytes (`csv_records`); how it splits the text
/// into records and fields is left to the crate.
#[verifier::external_body]
fn parse_csv(bytes: &[u8]) -> (r: Option<Vec<Vec<String>>>)
    ensures
        match r {
            Some(v) => csv_records(bytes@) == Some(rows_text(v@)),
            None => csv_records(bytes@) is None,
        },
{
    let mut rdr = csv::ReaderBuilder::new().flexible(true).from_reader(bytes);
    let mut rows = Vec::new();
    for result in rdr.records() {
        match result {
            Ok(record) => rows.push(record.iter().map(|x| x.to_string()).collect()),
            Err(_) => return None,
        }
    }
    Some(rows)
}

/// What reading the sign-up rows gives: the students, or the first
/// problem (see `signups_upto`).
pub open spec fn student_rows_result(rows: Seq<Seq<Seq<char>>>) -> Result<Seq<StudentView>, ReadError> {
    signups_upto(rows, rows.len() as int)
}

/// What reading the session rows gives: the finished table, or the first
/// problem (see `tables_upto` and `finish_table`).
pub open spec fn class_rows_result(rows: Seq<Seq<Seq<char>>>) -> Result<TableState, ReadError> {
    match tables_upto(rows, rows.len() as int) {
        Ok(st) => finish_table(st),
        Err(e) => Err(e),
    }
}

/// A student read from sign-up row `r`: at least eight fields, the first a
/// timestamp; the names, homeroom and first period are the row's second to
/// fifth fields without leading white space.
pub open spec fn read_from_row(rows: Seq<Seq<Seq<char>>>, r: int, st: StudentView) -> bool {
    &&& 0 <= r < rows.len()
    &&& rows[r].len() >= 8
    &&& st.first_name == trimmed(rows[r][1])
    &&& st.last_name == trimmed(rows[r][2])
    &&& st.homeroom == trimmed(rows[r][3])
    &&& st.first_period == trimmed(rows[r][4])
}

/// The student was read from some row of `rows` (see `read_from_row`).
pub open spec fn from_some_row(rows: Seq<Seq<Seq<char>>>, st: StudentView) -> bool {
    exists|r: int| #[trigger] read_from_row(rows, r, st)
}

/// Every student of `list` was read from some row of `rows` (see
/// `read_from_row`).
pub open spec fn all_read_from_rows(rows: Seq<Seq<Seq<char>>>, list: Seq<StudentView>) -> bool {
    forall|k: int| 0 <= k < list.len() ==> #[trigger] from_some_row(rows, list[k])
}

proof fn lemma_signup_fields_upto(rows: Seq<Seq<Seq<char>>>, n: int)
    requires
        0 <= n <= rows.len(),
        signups_upto(rows, n) is Ok,
    ensures
        all_read_from_rows(rows, signups_upto(rows, n)->Ok_0),
    decreases n,
{
    if n > 0 {
        lemma_signup_fields_upto(rows, n - 1);
        let prev = signups_upto(rows, n - 1)->Ok_0;
        let cur = signups_upto(rows, n)->Ok_0;
        let t = row_fields(rows[n - 1]);
        assert forall|k: int| 0 <= k < cur.len() implies #[trigger] from_some_row(rows, cur[k]) by {
            if k < prev.len() {
                assert(cur[k] == prev[k]);
                assert(from_some_row(rows, prev[k]));
            } else {
                assert(is_signup_row(t));
                assert(cur[k] == signup(t, n - 1)->Ok_0);
                assert(t[1] == trimmed(rows[n - 1][1]));
                assert(t[2] == trimmed(rows[n - 1][2]));
                assert(t[3] == trimmed(rows[n - 1][3]));
                assert(t[4] == trimmed(rows[n - 1][4]));
                assert(read_from_row(rows, n - 1, cur[k]));
            }
        }
        assert(all_read_from_rows(rows, cur));
    }
}

/// Every student read from the sign-up rows comes from one of the rows:
/// a row of at least eight fields whose second to fifth fields, without
/// leading white space, are the student's first name, last name, homeroom
/// and first period.
pub proof fn lemma_students_from_their_rows(rows: Seq<Seq<Seq<char>>>)
    requires
        student_rows_result(rows) is Ok,
    ensures
        all_read_from_rows(rows, student_rows_result(rows)->Ok_0),
{
    lemma_signup_fields_upto(rows, rows.len() as int);
}

/// Tests whether the sign-up rows can be read, and if not, returns the first
/// problem; `students_from_rows` may be called exactly when this returns
/// `Ok`.
pub fn check_student_rows(records: &Vec<Vec<String>>) -> (r: Result<(), ReadError>)
    ensures
        r == match student_rows_result(rows_text(records@)) {
            Ok(_) => Ok::<(), ReadError>(()),
            Err(e) => Err(e),
        },
{
    match read_student_rows(records) {
        Ok(_) => Ok(()),
        Err(e) => Err(e),
    }
}

/// Reads the students from the rows of the sign-up table: rows with at
/// least eight fields and a timestamp first are sign-ups (see `signup`),
/// the others are skipped. Every sign-up row must be readable (see
/// `check_student_rows`).
pub fn students_from_rows(records: &Vec<Vec<String>>) -> (r: Vec<Student>)
    requires
        student_rows_result(rows_text(records@)) is Ok,
    ensures
        views(r@) == student_rows_result(rows_text(records@))->Ok_0,
{
    match read_student_rows(records) {
        Ok(v) => v,
        Err(_) => {
            assert(false);
            Vec::new()
        },
    }
}

/// Tests whether the session rows can be read and give a finished table,
/// and if not, returns the first problem; `classes_from_rows` may be called
/// exactly when this returns `Ok`.
pub fn check_class_rows(records: &Vec<Vec<String>>) -> (r: Result<(), ReadError>)
    ensures
        r == match class_rows_result(rows_text(records@)) {
            Ok(_) => Ok::<(), ReadError>(()),
            Err(e) => Err(e),
        },
{
    match read_class_rows(records) {
        Ok(_) => Ok(()),
        Err(e) => Err(e),
    }
}

/// Reads the session list and its settings from the rows of the session
/// table (see `table_row` and `finish_table`). The rows must be readable
/// and give a minimum and a valid maximum (see `check_class_rows`).
pub fn classes_from_rows(records: &Vec<Vec<String>>) -> (r: ClassOutput)
    requires
        class_rows_result(rows_text(records@)) is Ok,
    ensures
        table_state(r) == class_rows_result(rows_text(records@))->Ok_0,
{
    match read_class_rows(records) {
        Ok(c) => c,
        Err(_) => {
            assert(false);
            ClassOutput { num_sessions: 0, min_students: 0, max_students: -1, classes: Vec::new() }
        },
    }
}

/// The sign-up file's bytes can be read: the CSV reader accepts them and
/// every sign-up row is readable.
pub open spec fn students_file_readable(bytes: Seq<u8>) -> bool {
    csv_records(bytes) matches Some(rows) && student_rows_result(rows) is Ok
}

/// The session file's bytes can be read: the CSV reader accepts them, the
/// rows are readable and give a minimum and a valid maximum.
pub open spec fn classes_file_readable(bytes: Seq<u8>) -> bool {
    csv_records(bytes) matches Some(rows) && class_rows_result(rows) is Ok
}

/// Reads the students from the bytes of the sign-up file: its CSV records
/// (`csv_records`) are read as `students_from_rows` reads rows. The file
/// must be readable (see `try_read_students`).
pub fn read_students(bytes: &[u8]) -> (r: Vec<Student>)
    requires
        students_file_readable(bytes@),
    ensures
        views(r@) == student_rows_result(csv_records(bytes@)->Some_0)->Ok_0,
{
    match parse_csv(bytes) {
        None => {
            assert(false);
            Vec::new()
        },
        Some(rows) => students_from_rows(&rows),
    }
}

/// Tests the sign-up file and reads it when it can be read: `Malformed`
/// when the CSV reader refuses the bytes, else the first problem of its
/// rows, else the students as `read_students` gives them.
pub fn try_read_students(bytes: &[u8]) -> (r: Result<Vec<Student>, ReadError>)
    ensures
        match csv_records(bytes@) {
            None => r == Err::<Vec<Student>, ReadError>(ReadError::Malformed),
            Some(rows) => match student_rows_result(rows) {
                Ok(sv) => r matches Ok(v) && views(v@) == sv,
                Err(e) => r == Err::<Vec<Student>, ReadError>(e),
            },
        },
{
    match parse_csv(bytes) {
        None => Err(ReadError::Malformed),
        Some(rows) => match check_student_rows(&rows) {
            Err(e) => Err(e),
            Ok(()) => Ok(read_students(bytes)),
        },
    }
}

/// Reads the session list and its settings from the bytes of the session
/// file: its CSV records (`csv_records`) are read as `classes_from_rows`
/// reads rows. The file must be readable (see `try_read_classes`).
pub fn read_classes(bytes: &[u8]) -> (r: ClassOutput)
    requires
        classes_file_readable(bytes@),
    ensures
        table_state(r) == class_rows_result(csv_records(bytes@)->Some_0)->Ok_0,
{
    match parse_csv(bytes) {
        None => {
            assert(false);
            ClassOutput { num_sessions: 0, min_students: 0, max_students: -1, classes: Vec::new() }
        },
        Some(rows) => classes_from_rows(&rows),
    }
}

/// Tests the session file and reads it when it can be read: `Malformed`
/// when the CSV reader refuses the bytes, else the first problem of its
/// rows or settings, else the table as `read_classes` gives it.
pub fn try_read_classes(bytes: &[u8]) -> (r: Result<ClassOutput, ReadError>)
    ensures
        match csv_records(bytes@) {
            None => r == Err::<ClassOutput, ReadError>(ReadError::Malformed),
            Some(rows) => match class_rows_result(rows) {
                Ok(done) => r matches Ok(c) && table_state(c) == done,
                Err(e) => r == Err::<ClassOutput, ReadError>(e),
            },
        },
{
    match parse_csv(bytes) {
        None => Err(ReadError::Malformed),
        Some(rows) => match check_class_rows(&rows) {
            Err(e) => Err(e),
            Ok(()) => Ok(read_classes(bytes)),
        },
    }
}

} // verus!
