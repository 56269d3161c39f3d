use class_scheduler::student::Student;

fn student(timestamp: u64, id: u32, grade: u8, prefs: &[u16], classes: &[u16]) -> Student {
    Student {
        timestamp,
        first_name: "Ada".to_string(),
        last_name: "Lovelace".to_string(),
        homeroom: "H1".to_string(),
        first_period: "P1".to_string(),
        student_id: id,
        grade,
        preferences: prefs.to_vec(),
        classes: classes.to_vec(),
    }
}

/// The move score computed in single precision, as a plain formula.
fn float_move_score(
    st: &Student,
    new_class_id: u16,
    period: usize,
    num_students_curr: i32,
    min_students: i32,
    max_students: i32,
    prohibited: &[&u16],
) -> i32 {
    if st.grade <= 8 && prohibited.contains(&&new_class_id) {
        return -1000;
    }
    let mut score = 0f32;
    let mut cur = st.preferences.iter().position(|&x| x == st.classes[period]).unwrap_or(0) as i32;
    if cur <= 1 {
        cur -= 2;
    }
    score += cur as f32;
    let mut other = st.preferences.iter().position(|&x| x == new_class_id).unwrap_or(st.preferences.len() + 2) as i32;
    if (new_class_id as i32 - st.classes[period] as i32).abs() <= 2 {
        other = 6;
    }
    score -= other as f32;
    score += (((num_students_curr - min_students) as f32 / (max_students - min_students) as f32) - 0.5) * 4.0;
    if st.grade >= 11 {
        score -= 1f32;
    }
    (score * 2.0).round() as i32
}

#[test]
fn sort_order_ranks_seniors_first() {
    let senior = student(1005, 10, 12, &[], &[]);
    let junior = student(1000, 11, 11, &[], &[]);
    let sophomore = student(1000, 12, 10, &[], &[]);
    assert_eq!(senior.sort_order(1000), 0xf000_0000_0000_0000 + 0x0100_0000_0000_0000 - 5);
    assert_eq!(junior.sort_order(1000), 0x7000_0000_0000_0000 + 0x0100_0000_0000_0000);
    assert_eq!(sophomore.sort_order(1000), 0x0100_0000_0000_0000);
    assert!(senior.sort_order(1000) > junior.sort_order(1000));
    assert!(junior.sort_order(1000) > sophomore.sort_order(1000));
}

#[test]
fn sort_order_earlier_signup_first() {
    let early = student(2000, 1, 9, &[], &[]);
    let late = student(2500, 2, 9, &[], &[]);
    assert!(early.sort_order(2000) > late.sort_order(2000));
    assert_eq!(early.sort_order(2000) - late.sort_order(2000), 500);
}

#[test]
fn sort_order_honorary_senior() {
    let honorary = student(1000, 1400515, 11, &[], &[]);
    assert_eq!(honorary.sort_order(1000), 0xf000_0000_0000_0000 + 0x0100_0000_0000_0000);
    let other_grade = student(1000, 1400515, 10, &[], &[]);
    assert_eq!(other_grade.sort_order(1000), 0x0100_0000_0000_0000);
}

#[test]
fn move_score_prohibited_middle_schooler() {
    let st = student(0, 1, 8, &[1, 2, 3, 4, 5, 6], &[1, 2, 3, 4]);
    let prohibited: &[&u16] = &[&45, &46, &47];
    assert_eq!(st.move_score(46, 0, 10, 5, 20, prohibited), -1000);
    let ninth = student(0, 1, 9, &[1, 2, 3, 4, 5, 6], &[1, 2, 3, 4]);
    assert_ne!(ninth.move_score(46, 0, 10, 5, 20, prohibited), -1000);
}

#[test]
fn move_score_exact_values() {
    let prohibited: &[&u16] = &[&45, &46, &47];
    // Holding first choice 10 in period 0, moving to unlisted 40:
    // current -2, target 6 + 2 = 8, fill (10 - 5) / (25 - 5) - 0.5 = -0.25, times 4 = -1.
    let st = student(0, 1, 9, &[10, 20, 30, 33, 36, 39], &[10, 20, 30, 33]);
    assert_eq!(st.move_score(40, 0, 10, 5, 25, prohibited), 2 * (-2 - 8 - 1));
    // A target within 2 of the current session ranks 6.
    assert_eq!(st.move_score(12, 0, 15, 5, 25, prohibited), 2 * (-2 - 6 + 0));
    // Holding the fourth choice (position 3) in period 3, moving to the sixth (position 5), junior.
    let jr = student(0, 2, 11, &[10, 20, 30, 33, 36, 39], &[10, 20, 30, 33]);
    assert_eq!(jr.move_score(39, 3, 25, 5, 25, prohibited), 2 * (3 - 5 + 2 - 1));
}

#[test]
fn move_score_rounds_halves_away_from_zero() {
    let prohibited: &[&u16] = &[];
    let st = student(0, 1, 9, &[10, 20, 30, 33, 36, 39], &[10, 20, 30, 33]);
    // fill term ((1 - 0) / 16 - 0.5) * 4 = -1.75; score -2 - 8 - 1.75 = -11.75; doubled -23.5 -> -24.
    assert_eq!(st.move_score(40, 0, 1, 0, 16, prohibited), -24);
    assert_eq!(float_move_score(&st, 40, 0, 1, 0, 16, prohibited), -24);
}

#[test]
fn move_score_equal_bounds() {
    let prohibited: &[&u16] = &[];
    let st = student(0, 1, 9, &[10, 20, 30, 33, 36, 39], &[10, 20, 30, 33]);
    assert_eq!(st.move_score(40, 0, 7, 5, 5, prohibited), i32::MAX);
    assert_eq!(st.move_score(40, 0, 3, 5, 5, prohibited), i32::MIN);
    assert_eq!(st.move_score(40, 0, 5, 5, 5, prohibited), 0);
}

#[test]
fn move_score_matches_single_precision_formula() {
    let prohibited: &[&u16] = &[&45, &46, &47];
    let prefs = [10u16, 20, 30, 33, 36, 45];
    let mut seed: u64 = 12345;
    let mut next = || {
        seed = seed.wrapping_mul(6364136223846793005).wrapping_add(1442695040888963407);
        (seed >> 33) as u32
    };
    for _ in 0..20000 {
        let grade = 7 + (next() % 6) as u8;
        let classes = [prefs[(next() % 6) as usize], 50, 51, 52];
        let st = student(0, 1, grade, &prefs, &classes);
        let new_id = [10u16, 11, 20, 30, 33, 36, 45, 46, 60][(next() % 9) as usize];
        let min = (next() % 20) as i32;
        let max = min + 1 + (next() % 40) as i32;
        let cur = (next() % 60) as i32;
        assert_eq!(
            st.move_score(new_id, 0, cur, min, max, prohibited),
            float_move_score(&st, new_id, 0, cur, min, max, prohibited),
            "grade {} class {} new {} cur {} min {} max {}",
            grade,
            classes[0],
            new_id,
            cur,
            min,
            max
        );
    }
}

#[test]
fn satisfaction_counts_ranks() {
    let st = student(0, 1, 12, &[10, 20, 30, 33, 36, 39], &[10, 30, 39, 50]);
    // 6 - 0, 6 - 2, 6 - 5, and -2 for a session not preferred.
    assert_eq!(st.satisfaction(), 6 + 4 + 1 - 2);
}

#[test]
fn official_score_walks_preferences() {
    // Holds first, third and fourth choices and one unlisted session:
    // 6 + 5 + 5 (worth drops by one after the missed second choice), then
    // misses of the fifth and sixth choices end the walk.
    let st = student(0, 1, 12, &[10, 20, 30, 33, 36, 39], &[10, 30, 33, 50]);
    assert_eq!(st.official_score(), (16, 24));
    let perfect = student(0, 1, 12, &[10, 20, 30, 33, 36, 39], &[20, 10, 33, 30]);
    assert_eq!(perfect.official_score(), (24, 24));
    let none = student(0, 1, 12, &[10, 20, 30, 33, 36, 39], &[1, 2, 3, 4]);
    assert_eq!(none.official_score(), (0, 24));
}

#[test]
fn move_score_never_falls_as_current_session_fills() {
    let prohibited: &[&u16] = &[&45, &46, &47];
    let st = student(1, 1, 10, &[3, 7, 9, 12, 20, 30], &[9, 7, 3, 12]);
    for (min, max) in [(0, 10), (5, 20), (3, 3), (2, 30)] {
        let mut last = i32::MIN;
        for n in 0..40 {
            let score = st.move_score(20, 0, n, min, max, prohibited);
            assert!(score >= last);
            last = score;
        }
    }
    // With an unlimited maximum (-1) the fill term turns around.
    assert!(st.move_score(20, 0, 10, 0, -1, prohibited) < st.move_score(20, 0, 0, 0, -1, prohibited));
}
