use errortk::schedule::{
    apply_exam_grade, apply_grade_on_date, card_phase, default_exam_state, is_valid_ymd,
    ExamState, FlashCardPhase, Grade,
};

fn fresh() -> ExamState {
    default_exam_state()
}

#[test]
fn default_state_fields() {
    let ex = fresh();
    assert_eq!(ex.stage, 0);
    assert_eq!(ex.again_streak, 0);
    assert_eq!(ex.priority, 1);
    assert!(ex.due.is_none());
    assert!(ex.history.is_empty());
}

#[test]
fn good_from_fresh_schedules_two_days() {
    let mut ex = fresh();
    apply_exam_grade(&mut ex, Grade::Good, 1_000_000, None);
    assert_eq!(ex.stage, 1);
    assert_eq!(ex.again_streak, 0);
    assert_eq!(ex.due, Some(1_000_000 + 172_800));
    assert_eq!(ex.history.len(), 1);
    assert_eq!(ex.history[0].ts, 1_000_000);
    assert_eq!(ex.history[0].grade, Grade::Good);
}

#[test]
fn hard_good_easy_tables() {
    // hard at stage 1: 3 days
    let mut ex = fresh();
    ex.stage = 1;
    apply_exam_grade(&mut ex, Grade::Hard, 0, None);
    assert_eq!(ex.due, Some(259_200));
    assert_eq!(ex.stage, 2);
    // easy at stage 5 clamps to the last entry: 24 days
    let mut ey = fresh();
    ey.stage = 5;
    apply_exam_grade(&mut ey, Grade::Easy, 0, None);
    assert_eq!(ey.due, Some(2_073_600));
    assert_eq!(ey.stage, 6);
    // good at stage 3: 25 days
    let mut ez = fresh();
    ez.stage = 3;
    apply_exam_grade(&mut ez, Grade::Good, 0, None);
    assert_eq!(ez.due, Some(2_160_000));
}

#[test]
fn again_lowers_stage_and_schedules_ten_minutes() {
    let mut ex = fresh();
    ex.stage = 2;
    apply_exam_grade(&mut ex, Grade::Again, 500, None);
    assert_eq!(ex.stage, 1);
    assert_eq!(ex.again_streak, 1);
    assert_eq!(ex.due, Some(500 + 600));
}

#[test]
fn again_streak_clamps_and_fourth_again_repeats() {
    let mut ex = fresh();
    ex.stage = 10;
    apply_exam_grade(&mut ex, Grade::Again, 0, None);
    assert_eq!(ex.again_streak, 1);
    assert_eq!(ex.due, Some(600));
    apply_exam_grade(&mut ex, Grade::Again, 0, None);
    assert_eq!(ex.again_streak, 2);
    assert_eq!(ex.due, Some(14_400));
    apply_exam_grade(&mut ex, Grade::Again, 0, None);
    assert_eq!(ex.again_streak, 3);
    assert_eq!(ex.due, Some(86_400));
    let third_due = ex.due;
    let third_streak = ex.again_streak;
    apply_exam_grade(&mut ex, Grade::Again, 0, None);
    // the fourth consecutive again leaves streak and interval unchanged
    assert_eq!(ex.again_streak, third_streak);
    assert_eq!(ex.due, third_due);
}

#[test]
fn non_again_resets_streak() {
    let mut ex = fresh();
    apply_exam_grade(&mut ex, Grade::Again, 0, None);
    assert_eq!(ex.again_streak, 1);
    apply_exam_grade(&mut ex, Grade::Good, 0, None);
    assert_eq!(ex.again_streak, 0);
}

#[test]
fn deadline_far_away_keeps_table_interval() {
    let mut ex = fresh();
    let now = 1_000_000;
    let deadline = now + 100 * 86_400;
    apply_exam_grade(&mut ex, Grade::Good, now, Some(deadline));
    assert_eq!(ex.due, Some(now + 172_800));
}

#[test]
fn deadline_close_caps_interval_two_days_before() {
    let mut ex = fresh();
    let now = 1_000_000;
    let deadline = now + 3 * 86_400;
    apply_exam_grade(&mut ex, Grade::Good, now, Some(deadline));
    // capped at deadline minus two days
    assert_eq!(ex.due, Some(now + 86_400));
    // the due time sits inside the window named by the deadline law
    let due = ex.due.unwrap();
    assert!(due >= now + 600);
    assert!(due <= deadline - 172_200);
}

#[test]
fn deadline_passed_forces_most_urgent_retest() {
    let mut ex = fresh();
    ex.stage = 4;
    let now = 1_000_000;
    apply_exam_grade(&mut ex, Grade::Easy, now, Some(now - 50));
    assert_eq!(ex.due, Some(now + 600));
}

#[test]
fn deadline_under_two_days_still_ten_minutes_floor() {
    let mut ex = fresh();
    let now = 1_000_000;
    let deadline = now + 86_400;
    apply_exam_grade(&mut ex, Grade::Good, now, Some(deadline));
    assert_eq!(ex.due, Some(now + 600));
}

#[test]
fn grading_on_a_calendar_date_uses_its_seven_utc_cutoff() {
    // 2025-12-28 07:00:00 UTC
    let cutoff = 1_766_905_200i64;
    let now = cutoff - 10 * 86_400;
    let mut ex = fresh();
    apply_grade_on_date(&mut ex, Grade::Good, now, 2025, 12, 28);
    // rest is 10 days; the two-day table interval stays
    assert_eq!(ex.due, Some(now + 172_800));
    // and a close date caps against that exact cutoff
    let now2 = cutoff - 3 * 86_400;
    let mut ey = fresh();
    apply_grade_on_date(&mut ey, Grade::Good, now2, 2025, 12, 28);
    assert_eq!(ey.due, Some(now2 + 86_400));
}

#[test]
fn leap_day_is_a_valid_deadline_date() {
    assert!(is_valid_ymd(2000, 2, 29));
    assert!(!is_valid_ymd(1900, 2, 29));
    assert!(!is_valid_ymd(2025, 4, 31));
    let cutoff = 951_807_600i64; // 2000-02-29 07:00:00 UTC
    let now = cutoff - 5 * 86_400;
    let mut ex = fresh();
    apply_grade_on_date(&mut ex, Grade::Good, now, 2000, 2, 29);
    assert_eq!(ex.due, Some(now + 172_800));
}

#[test]
fn history_is_append_only() {
    let mut ex = fresh();
    apply_exam_grade(&mut ex, Grade::Hard, 10, None);
    apply_exam_grade(&mut ex, Grade::Again, 20, None);
    apply_exam_grade(&mut ex, Grade::Easy, 30, None);
    assert_eq!(ex.history.len(), 3);
    assert_eq!(ex.history[0].grade, Grade::Hard);
    assert_eq!(ex.history[1].grade, Grade::Again);
    assert_eq!(ex.history[2].grade, Grade::Easy);
    assert_eq!(ex.history[0].ts, 10);
    assert_eq!(ex.history[2].ts, 30);
}

#[test]
fn priority_never_changes() {
    let mut ex = fresh();
    ex.priority = 7;
    apply_exam_grade(&mut ex, Grade::Good, 0, None);
    apply_exam_grade(&mut ex, Grade::Again, 0, None);
    assert_eq!(ex.priority, 7);
}

#[test]
fn card_phase_classification() {
    assert_eq!(card_phase(None), FlashCardPhase::New);
    let ex = fresh();
    assert_eq!(card_phase(Some(&ex)), FlashCardPhase::Learning);
    let mut ey = fresh();
    ey.stage = 2;
    assert_eq!(card_phase(Some(&ey)), FlashCardPhase::Review);
}

#[test]
fn stage_saturates_at_the_top() {
    let mut ex = fresh();
    ex.stage = 255;
    apply_exam_grade(&mut ex, Grade::Good, 0, None);
    assert_eq!(ex.stage, 255);
    assert_eq!(ex.due, Some(2_160_000));
}
