use class_scheduler::input::Class;
use class_scheduler::report::{
    find_session, held_sessions, perfect_satisfaction, placement, satisfaction_by_grade, session_demand,
    sort_by_last_name, text_less, Placement,
};
use class_scheduler::schedule::{ClassSchedule, Schedule};
use class_scheduler::student::Student;

fn student(last: &str, id: u32, grade: u8, prefs: &[u16], classes: &[u16]) -> Student {
    Student {
        timestamp: 0,
        first_name: format!("F{}", id),
        last_name: last.to_string(),
        homeroom: "H".to_string(),
        first_period: "P".to_string(),
        student_id: id,
        grade,
        preferences: prefs.to_vec(),
        classes: classes.to_vec(),
    }
}

fn class(id: u16, teacher: &str) -> Class {
    Class { id, subject: "S".to_string(), teacher: teacher.to_string(), presenter: "P".to_string() }
}

#[test]
fn text_less_matches_string_order() {
    let words = ["", "a", "b", "ab", "abc", "B", "Z", "é", "ä", "zz", "a b", "Ab"];
    for x in words {
        for y in words {
            assert_eq!(text_less(x, y), x < y, "{:?} {:?}", x, y);
        }
    }
}

#[test]
fn sort_by_last_name_is_stable() {
    let mut students = vec![
        student("Young", 1, 9, &[], &[]),
        student("Adams", 2, 9, &[], &[]),
        student("Young", 3, 9, &[], &[]),
        student("Baker", 4, 9, &[], &[]),
        student("Adams", 5, 9, &[], &[]),
    ];
    let mut expected: Vec<(String, u32)> = students.iter().map(|s| (s.last_name.clone(), s.student_id)).collect();
    expected.sort_by(|a, b| a.0.cmp(&b.0));
    sort_by_last_name(&mut students);
    let got: Vec<(String, u32)> = students.iter().map(|s| (s.last_name.clone(), s.student_id)).collect();
    assert_eq!(got, expected);
    assert_eq!(got.iter().map(|x| x.1).collect::<Vec<u32>>(), vec![2, 5, 4, 1, 3]);
}

#[test]
fn held_sessions_finds_first_session_per_period() {
    let classes = vec![class(3, "A"), class(5, "B"), class(3, "C"), class(8, "D")];
    let st = student("X", 1, 10, &[], &[5, 3, 8, 3]);
    assert_eq!(held_sessions(&classes, &st), vec![1, 0, 3, 0]);
    assert_eq!(find_session(&classes, 8), Some(3));
    assert_eq!(find_session(&classes, 4), None);
}

#[test]
fn perfect_satisfaction_is_eighteen() {
    assert_eq!(perfect_satisfaction(), 6 + 5 + 4 + 3);
}

#[test]
fn satisfaction_by_grade_totals() {
    let prefs = [10u16, 20, 30, 33, 36, 39];
    let students = vec![
        student("A", 1, 12, &prefs, &[10, 20, 30, 33]),
        student("B", 2, 12, &prefs, &[39, 50, 51, 52]),
        student("C", 3, 7, &prefs, &[36, 20, 30, 33]),
    ];
    let t = satisfaction_by_grade(&students);
    assert_eq!(t.len(), 6);
    assert_eq!(t[5], (6 + 5 + 4 + 3 + 1 - 2 - 2 - 2, 2));
    assert_eq!(t[0], (2 + 5 + 4 + 3, 1));
    assert_eq!(t[1], (0, 0));
}

#[test]
fn session_demand_counts_upper_classmen() {
    let schedule = Schedule {
        entries: vec![
            ClassSchedule { class_id: 20, periods: vec![vec![]; 4] },
            ClassSchedule { class_id: 10, periods: vec![vec![]; 4] },
        ],
    };
    let students = vec![
        student("A", 1, 12, &[10, 20, 10, 30, 31, 32], &[10, 30, 31, 32]),
        student("B", 2, 11, &[20, 10, 30, 31, 32, 33], &[30, 31, 32, 33]),
        student("C", 3, 10, &[10, 20, 30, 31, 32, 33], &[10, 20, 30, 31]),
    ];
    let d = session_demand(&schedule, &students);
    assert_eq!(d.len(), 2);
    assert_eq!(d[0].class_id, 10);
    assert_eq!(d[0].wanted, vec![1, 1, 1, 0, 0, 0]);
    assert_eq!(d[0].granted, vec![1, 0, 1, 0, 0, 0]);
    assert_eq!(d[1].class_id, 20);
    assert_eq!(d[1].wanted, vec![1, 1, 0, 0, 0, 0]);
    assert_eq!(d[1].granted, vec![0, 0, 0, 0, 0, 0]);
}

#[test]
fn placement_kinds() {
    assert_eq!(placement(3, 3), Placement::AllPlaced);
    assert_eq!(placement(2, 3), Placement::MorePlaced);
    assert_eq!(placement(3, 2), Placement::OneShort);
    assert_eq!(placement(3, 0), Placement::Short);
    assert_eq!(placement(0, 0), Placement::AllPlaced);
}

#[test]
fn session_demand_ignores_long_lists_of_younger_students() {
    let schedule = Schedule { entries: vec![ClassSchedule { class_id: 10, periods: vec![vec![]; 4] }] };
    let students = vec![
        student("A", 1, 12, &[10, 20, 30, 31, 32, 33], &[10, 30, 31, 32]),
        student("C", 3, 9, &[20, 30, 31, 32, 33, 34, 35, 10], &[10, 20, 30, 31]),
    ];
    let d = session_demand(&schedule, &students);
    assert_eq!(d[0].wanted, vec![1, 0, 0, 0, 0, 0]);
    assert_eq!(d[0].granted, vec![1, 0, 0, 0, 0, 0]);
}
