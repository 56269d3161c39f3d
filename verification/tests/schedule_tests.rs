use std::collections::HashMap;

use class_scheduler::assign::{sweep_times, SweepMode};
use class_scheduler::plan::ScheduleError;
use class_scheduler::input::{validate_input, Class, ClassOutput, InputError};
use class_scheduler::schedule::{schedule_valid, ClassSchedule, Schedule};
use class_scheduler::scheduler::{build_schedule, order_students};
use class_scheduler::student::Student;

const PROHIBITED: &[&u16] = &[&45, &46, &47];

fn class(id: u16) -> Class {
    Class { id, subject: format!("S{}", id), teacher: format!("T{}", id), presenter: format!("P{}", id) }
}

fn student(timestamp: u64, id: u32, grade: u8, prefs: &[u16]) -> Student {
    Student {
        timestamp,
        first_name: format!("F{}", id),
        last_name: format!("L{}", id),
        homeroom: "H".to_string(),
        first_period: "P".to_string(),
        student_id: id,
        grade,
        preferences: prefs.to_vec(),
        classes: vec![0xffff; 4],
    }
}

fn output(ids: &[u16], min: i32, max: i32) -> ClassOutput {
    ClassOutput { num_sessions: ids.len() as u16, min_students: min, max_students: max, classes: ids.iter().map(|&i| class(i)).collect() }
}

/// The move score in single precision.
fn float_move_score(st: &Student, new_class_id: u16, period: usize, cur: i32, min: i32, max: i32) -> i32 {
    if st.grade <= 8 && PROHIBITED.contains(&&new_class_id) {
        return -1000;
    }
    let mut score = 0f32;
    let mut c = st.preferences.iter().position(|&x| x == st.classes[period]).unwrap_or(0) as i32;
    if c <= 1 {
        c -= 2;
    }
    score += c as f32;
    let mut o = st.preferences.iter().position(|&x| x == new_class_id).unwrap_or(st.preferences.len() + 2) as i32;
    if (new_class_id as i32 - st.classes[period] as i32).abs() <= 2 {
        o = 6;
    }
    score -= o as f32;
    score += (((cur - min) as f32 / (max - min) as f32) - 0.5) * 4.0;
    if st.grade >= 11 {
        score -= 1f32;
    }
    (score * 2.0).round() as i32
}

/// The scheduling run written plainly over a hash map of rosters; `Err`
/// stands for a run that cannot finish.
fn plain_run(class_output: &ClassOutput, input: &[Student], aggressive: bool) -> Result<(HashMap<u16, Vec<Vec<u32>>>, Vec<Student>), String> {
    let mut students: Vec<Student> = input.iter().map(|s| Student { classes: s.classes.clone(), preferences: s.preferences.clone(), first_name: s.first_name.clone(), last_name: s.last_name.clone(), homeroom: s.homeroom.clone(), first_period: s.first_period.clone(), ..*s }).collect();
    let min_ts = students.iter().map(|x| x.timestamp).min().unwrap();
    students.sort_by_key(|a| a.sort_order(min_ts));
    students.reverse();
    let min = class_output.min_students;
    let max = class_output.max_students;
    let mut schedule: HashMap<u16, Vec<Vec<u32>>> = HashMap::new();
    for c in &class_output.classes {
        schedule.insert(c.id, vec![vec![]; 4]);
    }
    'period: for _ in 0..4 {
        'student: for student in students.iter_mut() {
            if aggressive && student.grade < 11 {
                continue 'period;
            }
            'choice: for choice in &student.preferences.clone() {
                if *choice == 0xfffe || student.classes.contains(choice) {
                    continue 'choice;
                }
                for p in 0..schedule[choice].len() {
                    if schedule[choice][p].len() < max as usize && student.classes[p] == 0xffff
                        && !(student.grade <= 8 && PROHIBITED.contains(&choice)) {
                        schedule.get_mut(choice).unwrap()[p].push(student.student_id);
                        student.classes[p] = *choice;
                        if !aggressive {
                            continue 'student;
                        } else {
                            continue 'choice;
                        }
                    }
                }
            }
        }
    }
    if aggressive {
        for _ in 0..4 {
            'student2: for student in students.iter_mut() {
                if student.grade >= 11 {
                    continue 'student2;
                }
                for choice in &student.preferences.clone() {
                    if *choice == 0xfffe || student.classes.contains(choice) {
                        continue;
                    }
                    for p in 0..schedule[choice].len() {
                        if schedule[choice][p].len() < max as usize && student.classes[p] == 0xffff
                            && !(student.grade <= 8 && PROHIBITED.contains(&choice)) {
                            schedule.get_mut(choice).unwrap()[p].push(student.student_id);
                            student.classes[p] = *choice;
                            continue 'student2;
                        }
                    }
                }
            }
        }
    }
    for student in students.iter_mut() {
        for p in 0..4usize {
            if student.classes[p] == 0xffff {
                let mut ids = schedule.keys().copied().collect::<Vec<u16>>();
                ids.sort();
                ids.sort_by_key(|x| schedule[x][p].len());
                let mut chosen = None;
                for id in ids.iter() {
                    if !student.classes.contains(id) && !(student.grade <= 8 && PROHIBITED.contains(&id)) {
                        chosen = Some(*id);
                        break;
                    }
                }
                let id = chosen.ok_or("no session")?;
                if schedule[&id][p].len() + 1 < max as usize {
                    schedule.get_mut(&id).unwrap()[p].push(student.student_id);
                    student.classes[p] = id;
                } else {
                    return Err("full".to_string());
                }
            }
        }
    }
    let mut ids = schedule.keys().filter(|x| schedule[*x].iter().any(|r| r.len() < min as usize)).copied().collect::<Vec<u16>>();
    ids.sort();
    ids.reverse();
    for class_id in ids.iter() {
        for p in 0..4usize {
            if schedule[class_id][p].len() < min as usize {
                students.sort_by_key(|s| s.student_id);
                students.sort_by_key(|s| float_move_score(s, *class_id, p, schedule[&s.classes[p]][p].len() as i32, min, max));
                students.reverse();
                let mut k = 0;
                while schedule[class_id][p].len() < min as usize {
                    if k >= students.len() {
                        return Err("not enough".to_string());
                    }
                    let s = &mut students[k];
                    if s.classes[p] != *class_id && schedule[&s.classes[p]][p].len() > min as usize && !s.classes.contains(class_id) {
                        let sid = s.student_id;
                        schedule.get_mut(&s.classes[p]).unwrap()[p].retain(|x| *x != sid);
                        s.classes[p] = *class_id;
                        schedule.get_mut(class_id).unwrap()[p].push(sid);
                    }
                    k += 1;
                }
            }
        }
    }
    Ok((schedule, students))
}

fn rosters(schedule: &Schedule) -> HashMap<u16, Vec<Vec<u32>>> {
    schedule.entries.iter().map(|e| (e.class_id, e.periods.clone())).collect()
}

struct Gen(u64);

impl Gen {
    fn next(&mut self) -> u32 {
        self.0 = self.0.wrapping_mul(6364136223846793005).wrapping_add(1442695040888963407);
        (self.0 >> 33) as u32
    }
}

fn random_case(g: &mut Gen) -> (ClassOutput, Vec<Student>) {
    let n_classes = 6 + (g.next() % 6) as usize;
    let ids: Vec<u16> = (0..n_classes).map(|i| if i < 3 { 44 + i as u16 } else { 10 + 3 * i as u16 }).collect();
    let n_students = 4 + (g.next() % 30) as usize;
    let max = if g.next() % 4 == 0 { -1 } else { (n_students as i32 / 2) + 3 + (g.next() % 6) as i32 };
    let min = (g.next() % 8) as i32;
    let mut students = Vec::new();
    for k in 0..n_students {
        let grade = 7 + (g.next() % 6) as u8;
        let mut prefs = Vec::new();
        for _ in 0..6 {
            if g.next() % 7 == 0 {
                prefs.push(0xfffe);
            } else {
                prefs.push(ids[(g.next() as usize) % n_classes]);
            }
        }
        students.push(student(1000 + (g.next() % 50) as u64, 100 + k as u32, grade, &prefs));
    }
    (output(&ids, min, max), students)
}

#[test]
fn schedule_valid_accepts_consistent_schedule() {
    let mut a = student(1, 1, 12, &[1, 2, 3, 4, 1, 2]);
    a.classes = vec![1, 2, 3, 4];
    let schedule = Schedule {
        entries: vec![
            ClassSchedule { class_id: 1, periods: vec![vec![1], vec![], vec![], vec![]] },
            ClassSchedule { class_id: 2, periods: vec![vec![], vec![1], vec![], vec![]] },
            ClassSchedule { class_id: 3, periods: vec![vec![], vec![], vec![1], vec![]] },
            ClassSchedule { class_id: 4, periods: vec![vec![], vec![], vec![], vec![1]] },
        ],
    };
    let students = vec![a];
    assert!(schedule_valid(&schedule, &students, 0, 5, PROHIBITED));
    // An empty roster is below a minimum of one.
    assert!(!schedule_valid(&schedule, &students, 1, 5, PROHIBITED));
}

#[test]
fn schedule_valid_rejects_repeat_and_prohibited() {
    let mut a = student(1, 1, 8, &[45, 2, 3, 4, 1, 2]);
    a.classes = vec![45, 2, 3, 4];
    let schedule = Schedule {
        entries: vec![
            ClassSchedule { class_id: 45, periods: vec![vec![1], vec![], vec![], vec![]] },
            ClassSchedule { class_id: 2, periods: vec![vec![], vec![1], vec![], vec![]] },
            ClassSchedule { class_id: 3, periods: vec![vec![], vec![], vec![1], vec![]] },
            ClassSchedule { class_id: 4, periods: vec![vec![], vec![], vec![], vec![1]] },
        ],
    };
    assert!(!schedule_valid(&schedule, &vec![a], 0, -1, PROHIBITED));
    let mut b = student(1, 1, 12, &[1, 2, 3, 4, 1, 2]);
    b.classes = vec![1, 1, 3, 4];
    let schedule2 = Schedule {
        entries: vec![
            ClassSchedule { class_id: 1, periods: vec![vec![1], vec![1], vec![], vec![]] },
            ClassSchedule { class_id: 3, periods: vec![vec![], vec![], vec![1], vec![]] },
            ClassSchedule { class_id: 4, periods: vec![vec![], vec![], vec![], vec![1]] },
        ],
    };
    assert!(!schedule_valid(&schedule2, &vec![b], 0, -1, PROHIBITED));
}

#[test]
fn schedule_valid_rejects_same_period_twice() {
    let mut a = student(1, 1, 12, &[1, 2, 3, 4, 5, 6]);
    a.classes = vec![1, 2, 3, 4];
    let schedule = Schedule {
        entries: vec![
            ClassSchedule { class_id: 1, periods: vec![vec![1], vec![], vec![], vec![]] },
            ClassSchedule { class_id: 2, periods: vec![vec![1], vec![1], vec![], vec![]] },
            ClassSchedule { class_id: 3, periods: vec![vec![], vec![], vec![1], vec![]] },
            ClassSchedule { class_id: 4, periods: vec![vec![], vec![], vec![], vec![1]] },
        ],
    };
    assert!(!schedule_valid(&schedule, &vec![a], 0, -1, PROHIBITED));
}

#[test]
fn order_students_serves_seniors_then_earliest() {
    let mut students = vec![
        student(1010, 1, 9, &[]),
        student(1005, 2, 12, &[]),
        student(1000, 3, 11, &[]),
        student(1001, 4, 9, &[]),
        student(1001, 5, 9, &[]),
    ];
    order_students(&mut students);
    let ids: Vec<u32> = students.iter().map(|s| s.student_id).collect();
    // Equal keys (students 4 and 5) come in the reverse of their given order.
    assert_eq!(ids, vec![2, 3, 5, 4, 1]);
}

#[test]
fn build_schedule_single_senior_gets_first_choices_in_order() {
    let out = output(&[1, 2, 3, 4, 5, 6], 0, 10);
    let mut students = vec![student(1, 7, 12, &[5, 3, 1, 6, 2, 4])];
    let schedule = build_schedule(&out, &mut students, PROHIBITED, true).unwrap();
    assert_eq!(students[0].classes, vec![5, 3, 1, 6]);
    let r = rosters(&schedule);
    assert_eq!(r[&5][0], vec![7]);
    assert_eq!(r[&3][1], vec![7]);
    assert_eq!(r[&2][0], Vec::<u32>::new());
}

#[test]
fn input_errors_are_reported_in_serving_order() {
    let out = output(&[1, 2, 3, 4], 0, 10);
    let mut students = vec![student(5, 7, 9, &[1, 2, 3, 4, 1, 2]), student(1, 8, 12, &[1, 2, 3, 9, 1, 2])];
    order_students(&mut students);
    assert_eq!(students[0].student_id, 8);
    assert_eq!(validate_input(&out.classes, &students), Err(InputError::UnknownPreference { student: 0, preference: 3 }));
}

#[test]
fn build_schedule_middle_schooler_avoids_prohibited_sessions() {
    let out = output(&[45, 46, 47, 10, 11, 12, 13], 0, -1);
    let mut students = vec![student(1, 7, 8, &[45, 46, 47, 10, 0xfffe, 0xfffe])];
    build_schedule(&out, &mut students, PROHIBITED, true).unwrap();
    let classes = students[0].classes.clone();
    assert!(classes.iter().all(|c| ![45u16, 46, 47].contains(c)));
    // First choice it may take, then the emptiest sessions by id.
    assert_eq!(classes, vec![10, 11, 12, 13]);
}

#[test]
fn build_schedule_full_sessions_are_reported() {
    // Capacity one: a fill needs the roster to stay below it.
    let out = output(&[1, 2, 3, 4], 0, 1);
    let mut students = vec![student(1, 7, 12, &[0xfffe; 6])];
    let r = build_schedule(&out, &mut students, PROHIBITED, true);
    assert!(matches!(r, Err(ScheduleError::SessionFull { .. })));
}

#[test]
fn build_schedule_no_open_session() {
    let out = output(&[1, 2, 3], 0, -1);
    let mut students = vec![student(1, 7, 12, &[1, 2, 3, 1, 2, 3])];
    let r = build_schedule(&out, &mut students, PROHIBITED, true);
    assert!(matches!(r, Err(ScheduleError::NoOpenSession { student: 0, period: 3 })));
}

#[test]
fn build_schedule_tops_up_small_sessions() {
    // Every session has a roster below the minimum of five, so every session
    // is topped up.
    let ids = [1u16, 2, 3, 4, 5];
    let out = output(&ids, 5, -1);
    let mut students = Vec::new();
    for k in 0..20u32 {
        students.push(student(1000 + k as u64, 100 + k, 12, &[1, 2, 3, 4, 1, 2]));
    }
    // Every senior takes sessions 1 to 4 in order; session 5 then draws five
    // students in each period, and session 4 can fill its first period only
    // from the five who gave it up, after which no one is left who does not
    // hold it.
    let r = build_schedule(&out, &mut students, PROHIBITED, true);
    assert!(matches!(r, Err(ScheduleError::NotEnoughStudents { class_id: 4, period: 1 })));
}

#[test]
fn build_schedule_minimum_reached_everywhere() {
    let mut g = Gen(2024);
    let mut seen = 0;
    for _ in 0..400 {
        let (mut out, mut students) = random_case(&mut g);
        out.min_students = (g.next() % 8) as i32;
        if let Ok(schedule) = build_schedule(&out, &mut students, PROHIBITED, true) {
            seen += 1;
            for e in &schedule.entries {
                for p in &e.periods {
                    assert!(p.len() as i32 >= out.min_students);
                }
            }
        }
    }
    let _ = seen;
}

#[test]
fn build_schedule_matches_plain_run() {
    let mut g = Gen(7);
    let mut agreed = 0;
    for _ in 0..300 {
        let (out, students) = random_case(&mut g);
        let aggressive = g.next() % 3 != 0;
        let expected = plain_run(&out, &students, aggressive);
        let mut mine: Vec<Student> = students.iter().map(|s| Student { classes: s.classes.clone(), preferences: s.preferences.clone(), first_name: s.first_name.clone(), last_name: s.last_name.clone(), homeroom: s.homeroom.clone(), first_period: s.first_period.clone(), ..*s }).collect();
        let got = build_schedule(&out, &mut mine, PROHIBITED, aggressive);
        match (expected, got) {
            (Ok((rost, studs)), Ok(schedule)) => {
                assert_eq!(rosters(&schedule), rost);
                let a: Vec<(u32, Vec<u16>)> = studs.iter().map(|s| (s.student_id, s.classes.clone())).collect();
                let b: Vec<(u32, Vec<u16>)> = mine.iter().map(|s| (s.student_id, s.classes.clone())).collect();
                assert_eq!(a, b);
                agreed += 1;
            }
            (Ok((rost, studs)), Err(ScheduleError::InvalidSchedule)) => {
                // The plain run finished; its result is not a valid schedule.
                let a: Vec<(u32, Vec<u16>)> = studs.iter().map(|s| (s.student_id, s.classes.clone())).collect();
                let b: Vec<(u32, Vec<u16>)> = mine.iter().map(|s| (s.student_id, s.classes.clone())).collect();
                assert_eq!(a, b);
                let _ = rost;
            }
            (Err(_), Err(e)) => {
                assert!(!matches!(e, ScheduleError::InvalidSchedule));
            }
            (x, y) => panic!("differ: {:?} {:?}", x.map(|_| ()), y.map(|_| ())),
        }
    }
    assert!(agreed > 0);
}

#[test]
fn build_schedule_results_agree_with_rosters() {
    let mut g = Gen(99);
    for _ in 0..200 {
        let (out, mut students) = random_case(&mut g);
        let before: Vec<u32> = students.iter().map(|s| s.student_id).collect();
        if let Ok(schedule) = build_schedule(&out, &mut students, PROHIBITED, true) {
            let mut after: Vec<u32> = students.iter().map(|s| s.student_id).collect();
            let mut sorted_before = before.clone();
            sorted_before.sort();
            after.sort();
            assert_eq!(after, sorted_before);
            let r = rosters(&schedule);
            for s in &students {
                for p in 0..4 {
                    let c = s.classes[p];
                    assert!(r[&c][p].contains(&s.student_id));
                    for q in 0..4 {
                        if q != p {
                            assert_ne!(c, s.classes[q]);
                        }
                    }
                }
            }
            for (c, periods) in &r {
                for (p, roster) in periods.iter().enumerate() {
                    for id in roster {
                        let s = students.iter().find(|s| s.student_id == *id).unwrap();
                        assert_eq!(s.classes[p], *c);
                    }
                }
            }
        }
    }
}

#[test]
fn build_schedule_invalid_only_on_bounds_or_prohibited() {
    let mut g = Gen(31337);
    let mut invalid = 0;
    for _ in 0..400 {
        let (out, mut students) = random_case(&mut g);
        let r = build_schedule(&out, &mut students, PROHIBITED, g.next() % 2 == 0);
        if let Err(ScheduleError::InvalidSchedule) = r {
            invalid += 1;
            let mut counts: HashMap<(u16, usize), i32> = HashMap::new();
            for s in &students {
                for p in 0..4 {
                    *counts.entry((s.classes[p], p)).or_insert(0) += 1;
                }
            }
            let mut out_of_bounds = false;
            for c in &out.classes {
                for p in 0..4 {
                    let n = *counts.get(&(c.id, p)).unwrap_or(&0);
                    if n < out.min_students || (out.max_students >= 0 && n > out.max_students) {
                        out_of_bounds = true;
                    }
                }
            }
            let prohibited_held = students.iter().any(|s| s.grade <= 8 && s.classes.iter().any(|c| PROHIBITED.contains(&c)));
            assert!(out_of_bounds || prohibited_held);
        }
    }
    let _ = invalid;
}

#[test]
fn fill_takes_emptiest_then_smallest_id() {
    // Two seniors take sessions 1 to 4 and 5 to 8 in order; a sophomore with
    // no usable preference then fills each period with the emptiest session,
    // smallest id first, that it does not hold yet.
    let out = output(&[1, 2, 3, 4, 5, 6, 7, 8, 9], 0, -1);
    let mut students = vec![
        student(1, 10, 12, &[1, 2, 3, 4, 0xfffe, 0xfffe]),
        student(2, 11, 12, &[5, 6, 7, 8, 0xfffe, 0xfffe]),
        student(3, 12, 10, &[0xfffe; 6]),
    ];
    build_schedule(&out, &mut students, PROHIBITED, true).unwrap();
    let soph = students.iter().find(|s| s.student_id == 12).unwrap();
    // In each period two sessions hold one senior and the others none; the
    // sophomore takes the empty session with the smallest id it does not
    // hold yet.
    let expected = vec![2u16, 1, 4, 3];
    assert_eq!(soph.classes, expected);
}

#[test]
fn build_schedule_tops_up_below_minimum_or_fails() {
    // Session 5 is empty in every period, below a minimum of one; the only
    // student cannot leave a session that would then fall below the minimum.
    let out = output(&[1, 2, 3, 4, 5], 1, -1);
    let mut students = vec![student(1, 7, 12, &[1, 2, 3, 4, 0xfffe, 0xfffe])];
    let r = build_schedule(&out, &mut students, PROHIBITED, true);
    assert!(matches!(r, Err(ScheduleError::NotEnoughStudents { class_id: 5, period: 0 })));
}

#[test]
fn build_schedule_tops_up_with_small_minimum() {
    // A minimum of three, below the number of periods: session 3 holds a
    // single student in some period after placement and is topped up.
    let out = output(&[1, 2, 3, 4, 5], 3, -1);
    let mut students = Vec::new();
    for k in 0..10u32 {
        students.push(student(1000 + k as u64, 100 + k, 12, &[1, 2, 4, 5, 0xfffe, 0xfffe]));
    }
    students.push(student(2000, 200, 12, &[3, 1, 2, 4, 0xfffe, 0xfffe]));
    let r = build_schedule(&out, &mut students, PROHIBITED, true);
    match r {
        Ok(schedule) => {
            for e in &schedule.entries {
                for p in &e.periods {
                    assert!(p.len() >= 3);
                }
            }
        }
        Err(e) => assert!(!matches!(e, ScheduleError::InvalidSchedule), "{:?}", e),
    }
}

#[test]
fn senior_passes_leave_younger_students_open() {
    let out = output(&[1, 2, 3, 4, 5, 6], 0, 2);
    let mut schedule = Schedule::from_classes(&out.classes, 4);
    let mut students = vec![
        student(1, 10, 12, &[1, 2, 3, 4, 5, 6]),
        student(2, 11, 11, &[1, 2, 3, 4, 5, 6]),
        student(3, 12, 10, &[1, 2, 3, 4, 5, 6]),
        student(4, 13, 12, &[6, 5, 4, 3, 2, 1]),
    ];
    sweep_times(&mut schedule, &mut students, 4, SweepMode::SeniorsFirst, 2, PROHIBITED);
    assert_eq!(students[0].classes, vec![1, 2, 3, 4]);
    assert_eq!(students[1].classes, vec![1, 2, 3, 4]);
    // The pass ends at the sophomore, so the senior after them is not served either.
    assert_eq!(students[2].classes, vec![0xffff; 4]);
    assert_eq!(students[3].classes, vec![0xffff; 4]);
    sweep_times(&mut schedule, &mut students, 4, SweepMode::Underclassmen, 2, PROHIBITED);
    // One session per pass, each in its first period with room in which the
    // sophomore is free: session 1 is full in period 0, so period 1; then
    // session 2 in period 0, session 3 in period 3, session 4 in period 2.
    assert_eq!(students[2].classes, vec![2, 1, 4, 3]);
    assert_eq!(students[3].classes, vec![0xffff; 4]);
}

fn holding(id: u32, classes: &[u16]) -> Student {
    let mut s = student(1, id, 12, &[1, 2, 3, 4, 5, 6]);
    s.classes = classes.to_vec();
    s
}

fn session(id: u16, periods: &[&[u32]]) -> ClassSchedule {
    ClassSchedule { class_id: id, periods: periods.iter().map(|r| r.to_vec()).collect() }
}

#[test]
fn schedule_valid_rejects_listing_in_two_sessions_of_a_period() {
    let students = vec![holding(7, &[1, 2, 3, 4])];
    let in_order = Schedule {
        entries: vec![
            session(1, &[&[7], &[], &[], &[]]),
            session(2, &[&[], &[7], &[], &[]]),
            session(3, &[&[], &[], &[7], &[]]),
            session(4, &[&[], &[], &[], &[7]]),
            session(5, &[&[7], &[], &[], &[]]),
        ],
    };
    assert!(!schedule_valid(&in_order, &students, 0, 1, PROHIBITED));
    // The same sessions in another order give the same answer.
    let reordered = Schedule {
        entries: vec![
            session(1, &[&[7], &[], &[], &[]]),
            session(5, &[&[7], &[], &[], &[]]),
            session(2, &[&[], &[7], &[], &[]]),
            session(3, &[&[], &[], &[7], &[]]),
            session(4, &[&[], &[], &[], &[7]]),
        ],
    };
    assert!(!schedule_valid(&reordered, &students, 0, 1, PROHIBITED));
}

#[test]
fn schedule_valid_does_not_depend_on_session_order() {
    let students = vec![holding(7, &[1, 2, 3, 4]), holding(8, &[4, 3, 2, 1])];
    let a = Schedule {
        entries: vec![
            session(1, &[&[7], &[], &[], &[8]]),
            session(2, &[&[], &[7], &[8], &[]]),
            session(3, &[&[], &[8], &[7], &[]]),
            session(4, &[&[8], &[], &[], &[7]]),
        ],
    };
    let b = Schedule {
        entries: vec![
            session(4, &[&[8], &[], &[], &[7]]),
            session(2, &[&[], &[7], &[8], &[]]),
            session(1, &[&[7], &[], &[], &[8]]),
            session(3, &[&[], &[8], &[7], &[]]),
        ],
    };
    assert!(schedule_valid(&a, &students, 0, 2, PROHIBITED));
    assert!(schedule_valid(&b, &students, 0, 2, PROHIBITED));
}

#[test]
fn schedule_valid_rejects_listing_the_student_does_not_hold() {
    // Student 7 is listed in session 2 in period 0 but holds session 1 there.
    let students = vec![holding(7, &[1, 2, 3, 4])];
    let schedule = Schedule {
        entries: vec![
            session(1, &[&[7], &[], &[], &[]]),
            session(2, &[&[], &[7], &[], &[7]]),
            session(3, &[&[], &[], &[7], &[]]),
            session(4, &[&[], &[], &[], &[7]]),
        ],
    };
    assert!(!schedule_valid(&schedule, &students, 0, -1, PROHIBITED));
}

#[test]
fn schedule_valid_rejects_missing_session_and_unknown_student() {
    // Session 9, held in period 3, is not in the schedule.
    let students = vec![holding(7, &[1, 2, 3, 9])];
    let schedule = Schedule {
        entries: vec![
            session(1, &[&[7], &[], &[], &[]]),
            session(2, &[&[], &[7], &[], &[]]),
            session(3, &[&[], &[], &[7], &[]]),
        ],
    };
    assert!(!schedule_valid(&schedule, &students, 0, 1, PROHIBITED));
    // A roster listing an id that no student has.
    let students = vec![holding(7, &[1, 2, 3, 4])];
    let schedule = Schedule {
        entries: vec![
            session(1, &[&[7, 99], &[], &[], &[]]),
            session(2, &[&[], &[7], &[], &[]]),
            session(3, &[&[], &[], &[7], &[]]),
            session(4, &[&[], &[], &[], &[7]]),
        ],
    };
    assert!(!schedule_valid(&schedule, &students, 0, -1, PROHIBITED));
    // A session without a roster for the period in which it is held.
    let schedule = Schedule {
        entries: vec![
            session(1, &[&[7], &[], &[], &[]]),
            session(2, &[&[], &[7], &[], &[]]),
            session(3, &[&[], &[], &[7], &[]]),
            session(4, &[&[], &[], &[]]),
        ],
    };
    assert!(!schedule_valid(&schedule, &students, 0, -1, PROHIBITED));
}

#[test]
fn schedule_valid_rejects_student_listed_twice_in_one_roster() {
    let students = vec![holding(7, &[1, 2, 3, 4])];
    let schedule = Schedule {
        entries: vec![
            session(1, &[&[7, 7], &[], &[], &[]]),
            session(2, &[&[], &[7], &[], &[]]),
            session(3, &[&[], &[], &[7], &[]]),
            session(4, &[&[], &[], &[], &[7]]),
        ],
    };
    assert!(!schedule_valid(&schedule, &students, 0, -1, PROHIBITED));
}
