//! The reviewable-item data model: questions grouped by source, row
//! references into those groups, and the grading that links a question's
//! schedule, mastery status and review stamp.

use vstd::prelude::*;
use crate::schedule::{
    apply_exam_grade, default_exam_state, exam_history, exam_priority, exam_stage, exam_streak,
    next_interval_secs, next_stage, next_streak, ExamState, Grade, ReviewEvent, TS_BOUND,
};
use crate::strutil::str_eq;

verus! {

/// Which of the three source groups a question belongs to.
#[derive(Clone, Copy, Debug, PartialEq, Eq, Structural)]
pub enum SourceKind {
    Simulation,
    Real,
    Famous,
}

impl SourceKind {
    /// The tag this source is stored and displayed under.
    pub fn as_str(&self) -> (s: &'static str)
        ensures
            *self is Simulation ==> s@ == "simulation"@,
            *self is Real ==> s@ == "real"@,
            *self is Famous ==> s@ == "famous"@,
    {
        match self {
            SourceKind::Simulation => "simulation",
            SourceKind::Real => "real",
            SourceKind::Famous => "famous",
        }
    }
}

/// The mastery label a question starts with.
pub fn default_status() -> (s: String)
    ensures
        s@ == "new"@,
{
    String::from_str("new")
}

/// One labeled answer option of a question.
#[derive(Clone, Debug)]
pub struct OptionItem {
    pub label: String,
    pub content: String,
}

/// One reviewable question. Timestamps (`last_reviewed`, and the `due` inside
/// the schedules) are seconds since the Unix epoch.
#[derive(Clone, Debug)]
pub struct Question {
    pub id: i64,
    pub origin_name: String,
    pub sub_name: String,
    pub qtype: i32,
    pub content: String,
    pub options: Vec<OptionItem>,
    pub answer: Vec<String>,
    pub analysis: String,
    pub comments: Vec<String>,
    pub user_status: String,
    pub last_reviewed: Option<i64>,
    pub source: Option<String>,
    pub exam: Option<ExamState>,
    /// Per-blank schedules, keyed by blank id; keys are unique.
    pub exam_by_cloze: Vec<(String, ExamState)>,
}

/// Store-level metadata, kept as the backing file holds it.
#[derive(Clone, Debug)]
pub struct Meta {
    pub last_sync: Option<String>,
    pub version: Option<String>,
}

/// The whole question store: one group of questions per source.
#[derive(Clone, Debug)]
pub struct ErrorData {
    pub meta: Meta,
    pub simulation: Vec<Question>,
    pub real: Vec<Question>,
    pub famous: Vec<Question>,
}

/// A reference to one question: its source group and its index there.
#[derive(Clone, Copy, Debug, PartialEq, Eq, Structural)]
pub struct RowRef {
    pub src: SourceKind,
    pub idx: usize,
}

/// The questions of one source group.
pub open spec fn spec_group(data: ErrorData, src: SourceKind) -> Seq<Question> {
    match src {
        SourceKind::Simulation => data.simulation@,
        SourceKind::Real => data.real@,
        SourceKind::Famous => data.famous@,
    }
}

/// Whether a row reference points inside the store.
pub open spec fn row_valid(data: ErrorData, rr: RowRef) -> bool {
    rr.idx < spec_group(data, rr.src).len()
}

/// The question a row reference points at.
pub open spec fn spec_question_of(data: ErrorData, rr: RowRef) -> Question {
    spec_group(data, rr.src)[rr.idx as int]
}

/// Looks a row reference up in the store.
pub fn get_question<'a>(data: &'a ErrorData, rr: &RowRef) -> (q: &'a Question)
    requires
        row_valid(*data, *rr),
    ensures
        *q == spec_question_of(*data, *rr),
{
    match rr.src {
        SourceKind::Simulation => &data.simulation[rr.idx],
        SourceKind::Real => &data.real[rr.idx],
        SourceKind::Famous => &data.famous[rr.idx],
    }
}

/// The position of the first occurrence of a source in the filter.
pub open spec fn spec_index_of_source(s: Seq<SourceKind>, k: SourceKind) -> Option<int>
    decreases s.len(),
{
    if s.len() == 0 {
        None
    } else if s[0] == k {
        Some(0)
    } else {
        match spec_index_of_source(s.drop_first(), k) {
            Some(i) => Some(i + 1),
            None => None,
        }
    }
}

/// The source filter after a toggle: a present source loses its first
/// occurrence, an absent one is appended, and an empty outcome falls back to
/// the default pair.
pub open spec fn spec_toggled_sources(s: Seq<SourceKind>, k: SourceKind) -> Seq<SourceKind> {
    let t = match spec_index_of_source(s, k) {
        Some(i) => s.remove(i),
        None => s.push(k),
    };
    if t.len() == 0 {
        seq![SourceKind::Simulation, SourceKind::Real]
    } else {
        t
    }
}

/// Toggles one source in the filter, as `spec_toggled_sources` describes.
pub fn toggle_source(filter: &mut Vec<SourceKind>, k: SourceKind)
    ensures
        final(filter)@ == spec_toggled_sources(old(filter)@, k),
{
    proof {
        assert(filter@.skip(0) =~= filter@);
    }
    let mut i: usize = 0;
    let mut found: Option<usize> = None;
    while i < filter.len() && found.is_none()
        invariant
            i <= filter@.len(),
            filter@ == old(filter)@,
            match found {
                Some(f) => f == i && f < filter@.len() && spec_index_of_source(filter@, k) == Some(
                    f as int,
                ),
                None => spec_index_of_source(filter@, k) == (match spec_index_of_source(
                    filter@.skip(i as int),
                    k,
                ) {
                    Some(t) => Some(t + i),
                    None => None::<int>,
                }),
            },
        decreases filter@.len() - i, (match found {
            Some(_) => 0int,
            None => 1int,
        }),
    {
        proof {
            assert(filter@.skip(i as int)[0] == filter@[i as int]);
            assert(filter@.skip(i as int).drop_first() =~= filter@.skip(i as int + 1));
        }
        if filter[i] == k {
            found = Some(i);
        } else {
            i = i + 1;
        }
    }
    match found {
        Some(f) => {
            let _ = filter.remove(f);
        },
        None => {
            proof {
                assert(filter@.skip(filter@.len() as int) =~= Seq::<SourceKind>::empty());
            }
            filter.push(k);
        },
    }
    if filter.len() == 0 {
        filter.push(SourceKind::Simulation);
        filter.push(SourceKind::Real);
        proof {
            assert(filter@ =~= seq![SourceKind::Simulation, SourceKind::Real]);
        }
    }
}

/// The mastery label after a grade: `Again` drops a reviewed question back
/// to reviewing (a new one stays new); `Hard` starts a new question
/// reviewing; `Good` and `Easy` mark it reviewing until it was explicitly
/// mastered, which they leave in place.
pub open spec fn spec_next_status(s: Seq<char>, grade: Grade) -> Seq<char> {
    match grade {
        Grade::Again => if s == "new"@ {
            "new"@
        } else {
            "reviewing"@
        },
        Grade::Hard => if s == "new"@ {
            "reviewing"@
        } else {
            s
        },
        _ => if s == "mastered"@ {
            s
        } else {
            "reviewing"@
        },
    }
}

/// Grades one question: its whole-item schedule is created lazily and
/// updated as `apply_exam_grade` describes, its mastery label moves as
/// `spec_next_status` describes, and the review stamp is set to `now`.
/// Nothing else about the question changes.
pub fn grade_question(q: &mut Question, grade: Grade, now: i64, deadline: Option<i64>)
    requires
        -TS_BOUND <= now <= TS_BOUND,
        deadline matches Some(dl) ==> -TS_BOUND <= dl <= TS_BOUND,
    ensures
        final(q).exam matches Some(e) && {
            &&& e.stage as int == next_stage(exam_stage(old(q).exam), grade)
            &&& e.again_streak as int == next_streak(exam_streak(old(q).exam), grade)
            &&& e.priority as int == exam_priority(old(q).exam)
            &&& e.due == Some(
                (now + next_interval_secs(
                    exam_stage(old(q).exam),
                    exam_streak(old(q).exam),
                    grade,
                    now as int,
                    deadline,
                )) as i64,
            )
            &&& e.history@ == exam_history(old(q).exam).push(ReviewEvent { ts: now, grade })
        },
        final(q).user_status@ == spec_next_status(old(q).user_status@, grade),
        final(q).last_reviewed == Some(now),
        final(q).id == old(q).id,
        final(q).origin_name == old(q).origin_name,
        final(q).sub_name == old(q).sub_name,
        final(q).qtype == old(q).qtype,
        final(q).content == old(q).content,
        final(q).options == old(q).options,
        final(q).answer == old(q).answer,
        final(q).analysis == old(q).analysis,
        final(q).comments == old(q).comments,
        final(q).source == old(q).source,
        final(q).exam_by_cloze == old(q).exam_by_cloze,
{
    let mut ex: ExamState = match q.exam.take() {
        Some(e) => e,
        None => default_exam_state(),
    };
    apply_exam_grade(&mut ex, grade, now, deadline);
    q.exam = Some(ex);
    let is_new = str_eq(q.user_status.as_str(), "new");
    let is_mastered = str_eq(q.user_status.as_str(), "mastered");
    match grade {
        Grade::Again => {
            if is_new {
                q.user_status = String::from_str("new");
            } else {
                q.user_status = String::from_str("reviewing");
            }
        },
        Grade::Hard => {
            if is_new {
                q.user_status = String::from_str("reviewing");
            }
        },
        _ => {
            if !is_mastered {
                q.user_status = String::from_str("reviewing");
            }
        },
    }
    q.last_reviewed = Some(now);
}

/// Grades the question a row points at, leaving every other question and the
/// metadata unchanged.
pub fn grade_question_row(
    data: &mut ErrorData,
    rr: &RowRef,
    grade: Grade,
    now: i64,
    deadline: Option<i64>,
)
    requires
        row_valid(*old(data), *rr),
        -TS_BOUND <= now <= TS_BOUND,
        deadline matches Some(dl) ==> -TS_BOUND <= dl <= TS_BOUND,
    ensures
        row_valid(*final(data), *rr),
        spec_group(*final(data), rr.src).len() == spec_group(*old(data), rr.src).len(),
        forall|other: SourceKind|
            other != rr.src ==> spec_group(*final(data), other) == spec_group(*old(data), other),
        final(data).meta == old(data).meta,
        forall|j: int|
            0 <= j < spec_group(*old(data), rr.src).len() && j != rr.idx
                ==> spec_group(*final(data), rr.src)[j] == spec_group(*old(data), rr.src)[j],
        ({
            let oldq = spec_question_of(*old(data), *rr);
            let newq = spec_question_of(*final(data), *rr);
            &&& newq.exam matches Some(e) && {
                &&& e.stage as int == next_stage(exam_stage(oldq.exam), grade)
                &&& e.again_streak as int == next_streak(exam_streak(oldq.exam), grade)
                &&& e.priority as int == exam_priority(oldq.exam)
                &&& e.due == Some(
                    (now + next_interval_secs(
                        exam_stage(oldq.exam),
                        exam_streak(oldq.exam),
                        grade,
                        now as int,
                        deadline,
                    )) as i64,
                )
                &&& e.history@ == exam_history(oldq.exam).push(ReviewEvent { ts: now, grade })
            }
            &&& newq.user_status@ == spec_next_status(oldq.user_status@, grade)
            &&& newq.last_reviewed == Some(now)
            &&& newq.id == oldq.id
            &&& newq.content == oldq.content
            &&& newq.answer == oldq.answer
            &&& newq.exam_by_cloze == oldq.exam_by_cloze
        }),
{
    let q: &mut Question = match rr.src {
        SourceKind::Simulation => &mut data.simulation[rr.idx],
        SourceKind::Real => &mut data.real[rr.idx],
        SourceKind::Famous => &mut data.famous[rr.idx],
    };
    grade_question(q, grade, now, deadline);
}

} // verus!
