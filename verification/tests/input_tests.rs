use class_scheduler::input::{check_valid_input, class_id_listed, validate_input, Class, ClassOutput, InputError};
use class_scheduler::records::{
    check_class_rows, check_student_rows, classes_from_rows, read_classes, read_students, students_from_rows, try_read_classes,
    try_read_students, ReadError,
};
use class_scheduler::student::Student;
use class_scheduler::text::{contains_text, is_white_space, parse_i32, parse_unsigned, trim_start};

fn class(id: u16, subject: &str) -> Class {
    Class { id, subject: subject.to_string(), teacher: format!("T{}", id), presenter: format!("P{}", id) }
}

fn student(id: u32, prefs: &[u16]) -> Student {
    Student {
        timestamp: 1,
        first_name: "Grace".to_string(),
        last_name: "Hopper".to_string(),
        homeroom: "H".to_string(),
        first_period: "F".to_string(),
        student_id: id,
        grade: 10,
        preferences: prefs.to_vec(),
        classes: vec![0xffff; 4],
    }
}

fn rows(text: &[&[&str]]) -> Vec<Vec<String>> {
    text.iter().map(|r| r.iter().map(|f| f.to_string()).collect()).collect()
}

#[test]
fn check_valid_input_accepts_good_data() {
    let classes = vec![class(1, "A"), class(2, "B")];
    let students = vec![student(5, &[1, 2, 0xfffe, 1, 2, 0xfffe]), student(6, &[2, 1, 2, 1, 2, 1])];
    assert_eq!(validate_input(&classes, &students), Ok(()));
    check_valid_input(&classes, &students);
}

#[test]
fn check_valid_input_preference_count() {
    let classes = vec![class(1, "A")];
    let students = vec![student(5, &[1, 1, 1, 1, 1, 1]), student(6, &[1, 1, 1])];
    assert_eq!(validate_input(&classes, &students), Err(InputError::PreferenceCount { student: 1 }));
}

#[test]
fn check_valid_input_unknown_preference() {
    let classes = vec![class(1, "A")];
    let students = vec![student(5, &[1, 1, 9, 1, 1, 1])];
    assert_eq!(validate_input(&classes, &students), Err(InputError::UnknownPreference { student: 0, preference: 2 }));
}

#[test]
fn check_valid_input_class_ids() {
    let students = vec![student(5, &[1, 1, 1, 1, 1, 1])];
    let zero = vec![class(1, "A"), class(0, "Z")];
    assert_eq!(validate_input(&zero, &students), Err(InputError::InvalidClassId { class: 1 }));
    let dup = vec![class(1, "A"), class(1, "B")];
    assert_eq!(validate_input(&dup, &students), Err(InputError::DuplicateClassId { class: 0 }));
}

#[test]
fn check_valid_input_student_ids() {
    let classes = vec![class(1, "A")];
    let zero = vec![student(5, &[1; 6]), student(0, &[1; 6])];
    assert_eq!(validate_input(&classes, &zero), Err(InputError::InvalidStudentId { student: 1 }));
    let dup = vec![student(5, &[1; 6]), student(5, &[1; 6])];
    assert_eq!(validate_input(&classes, &dup), Err(InputError::DuplicateStudentId { student: 0 }));
}

#[test]
fn check_valid_input_preferences_checked_first() {
    // A bad preference is reported before a duplicate session id.
    let classes = vec![class(1, "A"), class(1, "B")];
    let students = vec![student(5, &[1, 1, 1, 1, 1, 7])];
    assert_eq!(validate_input(&classes, &students), Err(InputError::UnknownPreference { student: 0, preference: 5 }));
}

#[test]
fn class_id_listed_finds_ids() {
    let classes = vec![class(3, "A"), class(7, "B")];
    assert!(class_id_listed(&classes, 7));
    assert!(!class_id_listed(&classes, 4));
}

#[test]
fn white_space_matches_std() {
    for u in 0u32..=0x10ffff {
        if let Some(c) = char::from_u32(u) {
            assert_eq!(is_white_space(c), c.is_whitespace(), "{:x}", u);
        }
    }
}

#[test]
fn trim_start_matches_std() {
    for s in ["  abc ", "\t\n x", "", "   ", "\u{3000}y", "z  ", " \u{a0}\u{2003}\u{85}k"] {
        assert_eq!(trim_start(s), s.trim_start());
    }
}

#[test]
fn parse_matches_std() {
    let samples = [
        "0", "7", "+7", "-7", "-0", "", "+", "-", " 7", "7 ", "12a", "255", "256", "65535", "65536", "4294967295",
        "4294967296", "2147483647", "2147483648", "-2147483648", "-2147483649", "18446744073709551615",
        "18446744073709551616", "99999999999999999999999", "007", "+-1", "١",
    ];
    for s in samples {
        assert_eq!(parse_unsigned(s, u64::MAX), s.parse::<u64>().ok(), "{}", s);
        assert_eq!(parse_unsigned(s, u32::MAX as u64), s.parse::<u32>().ok().map(|v| v as u64), "{}", s);
        assert_eq!(parse_unsigned(s, u16::MAX as u64), s.parse::<u16>().ok().map(|v| v as u64), "{}", s);
        assert_eq!(parse_unsigned(s, u8::MAX as u64), s.parse::<u8>().ok().map(|v| v as u64), "{}", s);
        assert_eq!(parse_i32(s), s.parse::<i32>().ok(), "{}", s);
    }
}

#[test]
fn contains_text_finds_pieces() {
    assert!(contains_text("num sessions", "sessions"));
    assert!(contains_text("abc", ""));
    assert!(!contains_text("ses", "sessions"));
    assert!(!contains_text("minimum", "students"));
}

#[test]
fn students_from_records_reads_rows() {
    let r = rows(&[
        &["Timestamp", "First", "Last", "HR", "P1", "ID", "Grade", "C1"],
        &["100", " Ada", "Lovelace", "H1", "P1", " 7", "12", "3", " 4", "5"],
        &["note"],
        &["101", "Alan", "Turing", "H2", "P2", "8", "11", "1", "2", "3", "4", "5", "6", "99"],
        &["102", "Kurt", "Goedel", "H3", "P3", "9", "10", "1", "2", "3", "4", "5", "6"],
    ]);
    assert_eq!(check_student_rows(&r), Ok(()));
    let students = students_from_rows(&r);
    assert_eq!(students.len(), 3);
    assert_eq!(students[0].timestamp, 100);
    assert_eq!(students[0].first_name, "Ada");
    assert_eq!(students[0].student_id, 7);
    assert_eq!(students[0].grade, 12);
    assert_eq!(students[0].preferences, vec![3, 4, 5, 0xfffe, 0xfffe, 0xfffe]);
    assert_eq!(students[0].classes, vec![0xffff; 4]);
    // With more than six preference fields the last one is dropped.
    assert_eq!(students[1].preferences, vec![1, 2, 3, 4, 5, 6]);
    assert_eq!(students[2].preferences, vec![1, 2, 3, 4, 5, 6]);
}

#[test]
fn students_from_records_errors() {
    let bad_id = rows(&[&["100", "A", "B", "H", "P", "x", "12", "1"]]);
    assert_eq!(check_student_rows(&bad_id).err(), Some(ReadError::StudentId { row: 0 }));
    let bad_grade = rows(&[&["100", "A", "B", "H", "P", "5", "300", "1"]]);
    assert_eq!(check_student_rows(&bad_grade).err(), Some(ReadError::Grade { row: 0 }));
    let bad_pref = rows(&[&["skip"], &["100", "A", "B", "H", "P", "5", "12", "1", "70000"]]);
    assert_eq!(check_student_rows(&bad_pref).err(), Some(ReadError::Preference { row: 1, field: 8 }));
}

#[test]
fn classes_from_records_reads_settings_and_sessions() {
    let r = rows(&[
        &["Num Sessions", "3"],
        &["MIN Students", " 2"],
        &["Max students", "20"],
        &["ID", "Subject", "Teacher", "Presenter"],
        &["1", "Math", "Smith", "Ann"],
        &[" 2", "Art", "Jones", "Bob"],
        &["3", "Music", "Lee"],
    ]);
    assert_eq!(check_class_rows(&r), Ok(()));
    let out = classes_from_rows(&r);
    assert_eq!(out.num_sessions, 3);
    assert_eq!(out.min_students, 2);
    assert_eq!(out.max_students, 20);
    assert_eq!(out.classes.len(), 2);
    assert_eq!(out.classes[1].id, 2);
    assert_eq!(out.classes[1].teacher, "Jones");
}

#[test]
fn classes_from_records_defaults_and_errors() {
    let r = rows(&[&["min students", "0"], &["1", "Math", "Smith", "Ann"]]);
    assert_eq!(check_class_rows(&r), Ok(()));
    let out = classes_from_rows(&r);
    assert_eq!(out.num_sessions, 1);
    assert_eq!(out.max_students, -1);
    let missing_min = rows(&[&["1", "Math", "Smith", "Ann"]]);
    assert_eq!(check_class_rows(&missing_min).err(), Some(ReadError::MissingMinimum));
    let bad_max = rows(&[&["min students", "0"], &["max students", "0"]]);
    assert_eq!(check_class_rows(&bad_max).err(), Some(ReadError::InvalidMaximum));
    let big_count = rows(&[&["num sessions", "70000"]]);
    assert_eq!(check_class_rows(&big_count).err(), Some(ReadError::SessionCount { row: 0 }));
    let no_value = rows(&[&["Max Students"]]);
    assert_eq!(check_class_rows(&no_value).err(), Some(ReadError::MissingField { row: 0, field: 1 }));
    let negative_id = rows(&[&["-3", "Math", "Smith", "Ann"]]);
    assert_eq!(check_class_rows(&negative_id).err(), Some(ReadError::SessionId { row: 0 }));
}

#[test]
fn read_classes_limits_out_of_range() {
    let big_min = rows(&[&["min students", "3000000000"]]);
    assert_eq!(check_class_rows(&big_min).err(), Some(ReadError::MinStudents { row: 0 }));
    let big_max = rows(&[&["min students", "1"], &["max students", "+3000000000"]]);
    assert_eq!(check_class_rows(&big_max).err(), Some(ReadError::MaxStudents { row: 1 }));
}

#[test]
fn read_students_from_csv_bytes() {
    let text = "Timestamp,First,Last,HR,P1,ID,Grade,C1\n\
                100, Ada,Lovelace,H1,P1, 7,12,3, 4,5\n\
                note\n\
                101,Alan,Turing,H2,P2,8,11,1,2,3,4,5,6,99\n";
    let students = read_students(text.as_bytes());
    assert_eq!(try_read_students(text.as_bytes()).unwrap().len(), 2);
    assert_eq!(students.len(), 2);
    assert_eq!(students[0].first_name, "Ada");
    assert_eq!(students[0].last_name, "Lovelace");
    assert_eq!(students[0].student_id, 7);
    assert_eq!(students[0].preferences, vec![3, 4, 5, 0xfffe, 0xfffe, 0xfffe]);
    assert_eq!(students[1].timestamp, 101);
    assert_eq!(students[1].preferences, vec![1, 2, 3, 4, 5, 6]);
    // The first line is the header: a sign-up there is not read.
    let only_header = "100,A,B,H,P,5,12,1\n";
    assert_eq!(read_students(only_header.as_bytes()).len(), 0);
    // Rows are counted from the first record after the header.
    let bad = "header\nskip\n100,A,B,H,P,x,12,1\n";
    assert_eq!(try_read_students(bad.as_bytes()).err(), Some(ReadError::StudentId { row: 1 }));
}

#[test]
fn read_students_rejects_invalid_utf8() {
    let bytes: &[u8] = b"header\n100,A,\xff\xfe,H,P,5,12,1\n";
    assert_eq!(try_read_students(bytes).err(), Some(ReadError::Malformed));
    assert_eq!(try_read_classes(bytes).err(), Some(ReadError::Malformed));
}

#[test]
fn read_classes_from_csv_bytes() {
    let text = "Settings\n\
                Num Sessions,3\n\
                MIN Students, 2\n\
                Max students,20\n\
                ID,Subject,Teacher,Presenter\n\
                1,Math,Smith,Ann\n\
                \" 2\",Art,Jones,Bob\n\
                3,Music,Lee\n";
    let out = read_classes(text.as_bytes());
    assert_eq!(try_read_classes(text.as_bytes()).unwrap().classes.len(), 2);
    assert_eq!(out.num_sessions, 3);
    assert_eq!(out.min_students, 2);
    assert_eq!(out.max_students, 20);
    assert_eq!(out.classes.len(), 2);
    assert_eq!(out.classes[0].subject, "Math");
    assert_eq!(out.classes[1].id, 2);
    assert_eq!(out.classes[1].presenter, "Bob");
    // Without a minimum the table is refused.
    let no_min = "ID,Subject,Teacher,Presenter\n1,Math,Smith,Ann\n";
    assert_eq!(try_read_classes(no_min.as_bytes()).err(), Some(ReadError::MissingMinimum));
}

#[test]
fn read_files_refuse_what_cannot_be_read() {
    // An empty preference field is not a session id.
    let blank = "Timestamp\n100,Ann,Lee,HR1,P1,7,12,3,\n";
    assert_eq!(try_read_students(blank.as_bytes()).err(), Some(ReadError::Preference { row: 0, field: 8 }));
    // The first line is the header, so a minimum given there is not read.
    let header_min = "Min Students,2\nMax Students,5\n1,Math,Smith,Jones\n";
    assert_eq!(try_read_classes(header_min.as_bytes()).err(), Some(ReadError::MissingMinimum));
    // A session id that is an i32 but not a u16.
    let big_id = "h\nmin students,1\n70000,Math,Smith,Jones\n";
    assert_eq!(try_read_classes(big_id.as_bytes()).err(), Some(ReadError::SessionId { row: 1 }));
}
