//! The spaced-repetition scheduler: a pure state-transition function from
//! (current schedule, grade, optional deadline) to the updated schedule.
//!
//! Time is measured in whole seconds since the Unix epoch; review intervals
//! are held in seconds as well, so the interval tables (given in days in the
//! retention curve) appear here multiplied out: one day is 86400 seconds,
//! ten minutes are 600, four hours are 14400.

use vstd::prelude::*;

verus! {

/// A discrete grading event for one reviewable unit.
#[derive(Clone, Copy, Debug, PartialEq, Eq, Structural)]
pub enum Grade {
    Again,
    Hard,
    Good,
    Easy,
}

/// One entry of a schedule's append-only history: when it was graded, and how.
#[derive(Clone, Copy, Debug, PartialEq, Eq, Structural)]
pub struct ReviewEvent {
    /// Seconds since the Unix epoch.
    pub ts: i64,
    pub grade: Grade,
}

/// The scheduling state of one reviewable unit.
#[derive(Clone, Debug)]
pub struct ExamState {
    /// Progress level; higher means a longer confirmed retention interval.
    pub stage: u8,
    /// How many consecutive `Again` grades ended the history; clamped to 3.
    pub again_streak: u8,
    /// Informational only; the scheduler never changes it.
    pub priority: u8,
    /// When the unit is next due, in seconds since the Unix epoch.
    pub due: Option<i64>,
    /// Every grading event ever applied, oldest first.
    pub history: Vec<ReviewEvent>,
}

/// Timestamps are kept well inside `i64` so that adding an interval of at
/// most 28 days (2419200 seconds) can never overflow.
pub const TS_BOUND: i64 = 0x2000_0000_0000_0000;

/// The `Again` interval table, indexed by the new streak value (at least 1):
/// 10 minutes, 4 hours, then 1 day for every further consecutive `Again`.
pub open spec fn again_interval_secs(streak: int) -> int {
    if streak <= 1 {
        600
    } else if streak == 2 {
        14400
    } else {
        86400
    }
}

/// The `Hard` interval table in days is [1, 3, 7, 14, 28], indexed by the
/// current stage and clamped to its last entry.
pub open spec fn hard_interval_secs(stage: int) -> int {
    if stage <= 0 {
        86400
    } else if stage == 1 {
        259200
    } else if stage == 2 {
        604800
    } else if stage == 3 {
        1209600
    } else {
        2419200
    }
}

/// The `Good` interval table in days is [2, 5, 12, 25], indexed by the
/// current stage and clamped to its last entry.
pub open spec fn good_interval_secs(stage: int) -> int {
    if stage <= 0 {
        172800
    } else if stage == 1 {
        432000
    } else if stage == 2 {
        1036800
    } else {
        2160000
    }
}

/// The `Easy` interval table in days is [4, 10, 24], indexed by the current
/// stage and clamped to its last entry.
pub open spec fn easy_interval_secs(stage: int) -> int {
    if stage <= 0 {
        345600
    } else if stage == 1 {
        864000
    } else {
        2073600
    }
}

/// The streak after a grade: `Again` raises it (clamped to 3), anything else
/// resets it to 0.
pub open spec fn next_streak(streak: int, grade: Grade) -> int {
    match grade {
        Grade::Again => if streak + 1 <= 3 {
            streak + 1
        } else {
            3
        },
        _ => 0,
    }
}

/// The stage after a grade: `Again` lowers it (floored at 0), anything else
/// raises it (saturating at the top of `u8`).
pub open spec fn next_stage(stage: int, grade: Grade) -> int {
    match grade {
        Grade::Again => if stage <= 0 {
            0
        } else {
            stage - 1
        },
        _ => if stage >= 255 {
            255
        } else {
            stage + 1
        },
    }
}

/// The interval picked from the tables, before any deadline adjustment.
/// `Again` indexes its table by the new streak; the other grades index
/// theirs by the stage the unit had before this grade.
pub open spec fn base_interval_secs(stage: int, streak: int, grade: Grade) -> int {
    match grade {
        Grade::Again => again_interval_secs(next_streak(streak, grade)),
        Grade::Hard => hard_interval_secs(stage),
        Grade::Good => good_interval_secs(stage),
        Grade::Easy => easy_interval_secs(stage),
    }
}

/// Deadline adjustment, given the seconds remaining until the deadline
/// cutoff. While time remains, the interval is capped at two days before
/// the cutoff but never brought under ten minutes; once the cutoff has
/// passed, the most urgent re-test (ten minutes) is forced.
pub open spec fn adjusted_interval_secs(base: int, rest: int) -> int {
    if rest > 0 {
        let cap = if rest - 172800 > 600 {
            rest - 172800
        } else {
            600
        };
        if base < cap {
            base
        } else {
            cap
        }
    } else {
        600
    }
}

/// The full interval a grade earns: the table value, adjusted for the
/// deadline cutoff when one is supplied.
pub open spec fn next_interval_secs(
    stage: int,
    streak: int,
    grade: Grade,
    now: int,
    deadline: Option<i64>,
) -> int {
    let base = base_interval_secs(stage, streak, grade);
    match deadline {
        None => base,
        Some(d) => adjusted_interval_secs(base, d - now),
    }
}

/// A schedule as it is first created: nothing learned, nothing due.
pub fn default_exam_state() -> (ex: ExamState)
    ensures
        ex.stage == 0,
        ex.again_streak == 0,
        ex.priority == 1,
        ex.due is None,
        ex.history@ =~= Seq::<ReviewEvent>::empty(),
{
    ExamState { stage: 0, again_streak: 0, priority: 1, due: None, history: Vec::new() }
}

/// Applies one grade to a schedule: updates streak and stage, picks the next
/// interval from the tables, caps it against the deadline cutoff when one is
/// given, stamps the new due time and appends the event to the history. It
/// never fails and never drops history.
pub fn apply_exam_grade(ex: &mut ExamState, grade: Grade, now: i64, deadline: Option<i64>)
    requires
        -TS_BOUND <= now <= TS_BOUND,
        deadline matches Some(d) ==> -TS_BOUND <= d <= TS_BOUND,
    ensures
        final(ex).stage as int == next_stage(old(ex).stage as int, grade),
        final(ex).again_streak as int == next_streak(old(ex).again_streak as int, grade),
        final(ex).priority == old(ex).priority,
        final(ex).due == Some(
            (now + next_interval_secs(
                old(ex).stage as int,
                old(ex).again_streak as int,
                grade,
                now as int,
                deadline,
            )) as i64,
        ),
        final(ex).history@ == old(ex).history@.push(ReviewEvent { ts: now, grade }),
{
    let base: i64 = match grade {
        Grade::Again => {
            let s: u8 = if ex.again_streak >= 3 {
                3
            } else {
                ex.again_streak + 1
            };
            ex.again_streak = s;
            if ex.stage > 0 {
                ex.stage = ex.stage - 1;
            }
            if s <= 1 {
                600
            } else if s == 2 {
                14400
            } else {
                86400
            }
        },
        Grade::Hard => {
            ex.again_streak = 0;
            let st = ex.stage;
            if ex.stage < 255 {
                ex.stage = ex.stage + 1;
            }
            if st == 0 {
                86400
            } else if st == 1 {
                259200
            } else if st == 2 {
                604800
            } else if st == 3 {
                1209600
            } else {
                2419200
            }
        },
        Grade::Good => {
            ex.again_streak = 0;
            let st = ex.stage;
            if ex.stage < 255 {
                ex.stage = ex.stage + 1;
            }
            if st == 0 {
                172800
            } else if st == 1 {
                432000
            } else if st == 2 {
                1036800
            } else {
                2160000
            }
        },
        Grade::Easy => {
            ex.again_streak = 0;
            let st = ex.stage;
            if ex.stage < 255 {
                ex.stage = ex.stage + 1;
            }
            if st == 0 {
                345600
            } else if st == 1 {
                864000
            } else {
                2073600
            }
        },
    };
    let interval: i64 = match deadline {
        None => base,
        Some(d) => {
            let rest = d - now;
            if rest > 0 {
                let cap = if rest - 172800 > 600 {
                    rest - 172800
                } else {
                    600
                };
                if base < cap {
                    base
                } else {
                    cap
                }
            } else {
                600
            }
        },
    };
    ex.due = Some(now + interval);
    ex.history.push(ReviewEvent { ts: now, grade });
}

/// `Again` never raises the stage, and any other grade raises it by exactly
/// one as long as the stage has room to grow.
pub proof fn lemma_stage_movement(stage: int, grade: Grade)
    requires
        0 <= stage <= 255,
    ensures
        grade is Again ==> next_stage(stage, grade) <= stage,
        !(grade is Again) && stage < 255 ==> next_stage(stage, grade) == stage + 1,
{
}

/// The streak stays inside [0, 3], and once it sits at 3 a further `Again`
/// leaves both the streak and the chosen interval exactly where the previous
/// `Again` left them.
pub proof fn lemma_streak_clamped(stage: int, streak: int, grade: Grade)
    requires
        0 <= streak <= 3,
    ensures
        0 <= next_streak(streak, grade) <= 3,
        streak == 3 && grade is Again ==> {
            &&& next_streak(streak, grade) == 3
            &&& base_interval_secs(stage, streak, grade) == again_interval_secs(3)
        },
{
}

/// With a deadline cutoff more than two days away, the due time a grade
/// produces lands no later than two days minus ten minutes before the
/// cutoff, and no earlier than ten minutes from now.
pub proof fn lemma_deadline_window(stage: int, streak: int, grade: Grade, now: int, d: i64)
    requires
        now < d - 172800,
    ensures
        now + 600 <= now + next_interval_secs(stage, streak, grade, now, Some(d)),
        now + next_interval_secs(stage, streak, grade, now, Some(d)) <= d - 172200,
{
}

/// The stage of an optional schedule, a fresh schedule counting as stage 0.
pub open spec fn exam_stage(x: Option<ExamState>) -> int {
    match x {
        Some(e) => e.stage as int,
        None => 0,
    }
}

/// The streak of an optional schedule, a fresh schedule counting as 0.
pub open spec fn exam_streak(x: Option<ExamState>) -> int {
    match x {
        Some(e) => e.again_streak as int,
        None => 0,
    }
}

/// The priority of an optional schedule, a fresh schedule counting as 1.
pub open spec fn exam_priority(x: Option<ExamState>) -> int {
    match x {
        Some(e) => e.priority as int,
        None => 1,
    }
}

/// The history of an optional schedule, a fresh schedule having none.
pub open spec fn exam_history(x: Option<ExamState>) -> Seq<ReviewEvent> {
    match x {
        Some(e) => e.history@,
        None => Seq::empty(),
    }
}

/// Whether a year is a leap year of the proleptic Gregorian calendar.
pub open spec fn is_leap_year(y: int) -> bool {
    (y % 4 == 0 && y % 100 != 0) || y % 400 == 0
}

/// How many days the given month of the given year has.
pub open spec fn days_in_month(y: int, m: int) -> int {
    if m == 2 {
        if is_leap_year(y) {
            29
        } else {
            28
        }
    } else if m == 4 || m == 6 || m == 9 || m == 11 {
        30
    } else {
        31
    }
}

/// A calendar date the deadline may name: a valid proleptic-Gregorian date
/// within the years a timestamp string can carry.
pub open spec fn valid_ymd(y: int, m: int, d: int) -> bool {
    0 <= y <= 9999 && 1 <= m <= 12 && 1 <= d <= days_in_month(y, m)
}

/// Whether (y, m, d) is a date the deadline may name.
pub fn is_valid_ymd(y: i32, m: u8, d: u8) -> (r: bool)
    ensures
        r == valid_ymd(y as int, m as int, d as int),
{
    if y < 0 || y > 9999 || m < 1 || m > 12 || d < 1 {
        return false;
    }
    let leap = (y % 4 == 0 && y % 100 != 0) || y % 400 == 0;
    let dim: u8 = if m == 2 {
        if leap {
            29
        } else {
            28
        }
    } else if m == 4 || m == 6 || m == 9 || m == 11 {
        30
    } else {
        31
    };
    d <= dim
}

/// The number of seconds from the Unix epoch to 07:00:00 UTC on the given
/// calendar day: the fixed cutoff time a deadline date denotes. The calendar
/// arithmetic is a fixed function of the date alone; it is named here rather
/// than spelled out.
pub uninterp spec fn day_cutoff_secs(y: int, m: int, d: int) -> int;

/// Relies on `chrono::NaiveDate::from_ymd_opt`, `NaiveDate::and_hms_opt`,
/// `NaiveDateTime::and_utc` and `DateTime::timestamp`: for a valid
/// proleptic-Gregorian date these return the datetime at 07:00:00 UTC on
/// that day and its Unix timestamp in seconds, a value determined by the
/// date alone and far inside `i64` for any date `NaiveDate` can hold.
#[verifier::external_body]
fn date_cutoff_secs(y: i32, m: u8, d: u8) -> (t: i64)
    requires
        valid_ymd(y as int, m as int, d as int),
    ensures
        t == day_cutoff_secs(y as int, m as int, d as int),
        -0x1_0000_0000_0000 <= t <= 0x1_0000_0000_0000,
{
    chrono::NaiveDate::from_ymd_opt(y, m as u32, d as u32)
        .unwrap()
        .and_hms_opt(7, 0, 0)
        .unwrap()
        .and_utc()
        .timestamp()
}

/// Applies a grade under a deadline given as a calendar date: the cutoff is
/// 07:00 UTC on that day, and the interval is capped as `apply_exam_grade`
/// describes.
pub fn apply_grade_on_date(ex: &mut ExamState, grade: Grade, now: i64, y: i32, m: u8, d: u8)
    requires
        valid_ymd(y as int, m as int, d as int),
        -0x1_0000_0000_0000 <= now <= 0x1_0000_0000_0000,
    ensures
        final(ex).stage as int == next_stage(old(ex).stage as int, grade),
        final(ex).again_streak as int == next_streak(old(ex).again_streak as int, grade),
        final(ex).priority == old(ex).priority,
        final(ex).due == Some(
            (now + next_interval_secs(
                old(ex).stage as int,
                old(ex).again_streak as int,
                grade,
                now as int,
                Some((day_cutoff_secs(y as int, m as int, d as int)) as i64),
            )) as i64,
        ),
        final(ex).history@ == old(ex).history@.push(ReviewEvent { ts: now, grade }),
{
    let cutoff = date_cutoff_secs(y, m, d);
    apply_exam_grade(ex, grade, now, Some(cutoff));
}

/// The phase a flashcard is counted under, derived from its per-blank
/// schedule entry.
#[derive(Clone, Copy, Debug, PartialEq, Eq, Structural)]
pub enum FlashCardPhase {
    New,
    Learning,
    Review,
}

/// The phase of a per-blank schedule entry: absent means never graded,
/// stage 0 means still being learned, anything higher means in review.
pub open spec fn spec_card_phase(exam: Option<ExamState>) -> FlashCardPhase {
    match exam {
        None => FlashCardPhase::New,
        Some(ex) => if ex.stage == 0 {
            FlashCardPhase::Learning
        } else {
            FlashCardPhase::Review
        },
    }
}

/// Classifies a card for the aggregate phase counts.
pub fn card_phase(exam: Option<&ExamState>) -> (p: FlashCardPhase)
    ensures
        p == spec_card_phase(match exam {
            Some(e) => Some(*e),
            None => None,
        }),
{
    match exam {
        None => FlashCardPhase::New,
        Some(ex) => {
            if ex.stage == 0 {
                FlashCardPhase::Learning
            } else {
                FlashCardPhase::Review
            }
        },
    }
}

} // verus!
