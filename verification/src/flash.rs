//! Flashcard derivation and session state: one card per unique blank of a
//! note's markup, or a synthesized card from a question's answer list, plus
//! the position/reveal state machine and the aggregate phase counts.

use vstd::prelude::*;
use crate::cloze::{parse_clozes, spec_clozes};
use crate::data::{row_valid, spec_question_of, ErrorData, Question, RowRef};
use crate::notes::Note;
use crate::schedule::{
    apply_exam_grade, card_phase, default_exam_state, exam_history, exam_priority, exam_stage,
    exam_streak, next_interval_secs, next_stage, next_streak, spec_card_phase, ExamState,
    FlashCardPhase, Grade, ReviewEvent, TS_BOUND,
};
use crate::strutil::{str_eq, trim_chars, trim_of, chars_of_str};

verus! {

/// What one flashcard tests: a blank of a note, or a question's synthesized
/// answer card.
#[derive(Clone, Debug)]
pub enum FlashCardSource {
    Note { note_idx: usize, cloze: String },
    Question { row: RowRef, cloze: String, answers: Vec<String>, is_multi: bool },
}

/// The unique blank ids among the first `k`, keeping first occurrences in
/// appearance order.
pub open spec fn dedupe_prefix(ids: Seq<Seq<char>>, k: int) -> Seq<Seq<char>>
    decreases k,
{
    if k <= 0 {
        Seq::empty()
    } else {
        let d = dedupe_prefix(ids, k - 1);
        if exists|t: int| 0 <= t < k - 1 && #[trigger] ids[t] == ids[k - 1] {
            d
        } else {
            d.push(ids[k - 1])
        }
    }
}

/// The blank ids of a text, in appearance order, duplicates kept.
pub open spec fn spec_blank_ids(content: Seq<char>) -> Seq<Seq<char>> {
    spec_clozes(content).map_values(|c: (Seq<char>, Seq<char>, Option<Seq<char>>)| c.0)
}

/// Derives the note's flashcards: one card per unique blank id, ordered by
/// first appearance.
pub fn flash_cards_from_note(note_idx: usize, content: &str) -> (cards: Vec<FlashCardSource>)
    ensures
        ({
            let ids = spec_blank_ids(content@);
            let uniq = dedupe_prefix(ids, ids.len() as int);
            &&& cards@.len() == uniq.len()
            &&& forall|t: int|
                0 <= t < uniq.len() ==> ((#[trigger] cards@[t]) matches FlashCardSource::Note {
                    note_idx: ni,
                    cloze,
                } && ni == note_idx && cloze@ == uniq[t])
        }),
{
    let clozes = parse_clozes(content);
    let ghost ids = spec_blank_ids(content@);
    proof {
        assert(ids.len() == clozes@.len());
        assert(forall|t: int| 0 <= t < clozes@.len() ==> (#[trigger] clozes@[t]).idx@ == ids[t]);
    }
    let mut cards: Vec<FlashCardSource> = Vec::new();
    let mut k: usize = 0;
    while k < clozes.len()
        invariant
            k <= clozes@.len(),
            ids == spec_blank_ids(content@),
            ids.len() == clozes@.len(),
            forall|t: int| 0 <= t < clozes@.len() ==> (#[trigger] clozes@[t]).idx@ == ids[t],
            cards@.len() == dedupe_prefix(ids, k as int).len(),
            forall|t: int|
                0 <= t < cards@.len() ==> ((#[trigger] cards@[t]) matches FlashCardSource::Note {
                    note_idx: ni,
                    cloze,
                } && ni == note_idx && cloze@ == dedupe_prefix(ids, k as int)[t]),
        decreases clozes@.len() - k,
    {
        // is this id's first appearance?
        let mut seen = false;
        let mut t: usize = 0;
        while t < k && !seen
            invariant
                t <= k,
                k < clozes@.len(),
                ids.len() == clozes@.len(),
                forall|u: int| 0 <= u < clozes@.len() ==> (#[trigger] clozes@[u]).idx@ == ids[u],
                seen ==> exists|u: int| 0 <= u < k && ids[u] == ids[k as int],
                !seen ==> forall|u: int| 0 <= u < t ==> ids[u] != ids[k as int],
            decreases k - t, (if seen { 0int } else { 1int }),
        {
            if str_eq(clozes[t].idx.as_str(), clozes[k].idx.as_str()) {
                seen = true;
            } else {
                t = t + 1;
            }
        }
        if !seen {
            let id = clozes[k].idx.clone();
            proof {
                assert(clozes@[k as int].idx@ == ids[k as int]);
            }
            cards.push(FlashCardSource::Note { note_idx, cloze: id });
            proof {
                assert(!(exists|u: int| 0 <= u < k && ids[u] == ids[k as int]));
                assert(dedupe_prefix(ids, k as int + 1) == dedupe_prefix(ids, k as int).push(
                    ids[k as int],
                ));
            }
        } else {
            proof {
                assert(dedupe_prefix(ids, k as int + 1) == dedupe_prefix(ids, k as int));
            }
        }
        k = k + 1;
    }
    cards
}

/// The non-blank answers of a question, in order, untrimmed.
pub open spec fn spec_nonblank_answers(answers: Seq<String>) -> Seq<String> {
    answers.filter(|a: String| trim_of(a@).len() != 0)
}

/// Derives the question's synthesized flashcards from its answer list: no
/// non-blank answer gives no card; exactly one gives a single card with id
/// `a1`; several give one combined card with id `multi`.
pub fn flash_cards_from_question(row: RowRef, q: &Question) -> (cards: Vec<FlashCardSource>)
    ensures
        ({
            let kept = spec_nonblank_answers(q.answer@);
            if kept.len() == 0 {
                cards@.len() == 0
            } else {
                cards@.len() == 1 && (cards@[0] matches FlashCardSource::Question {
                    row: r,
                    cloze,
                    answers,
                    is_multi,
                } && r == row && answers@ == kept && is_multi == (kept.len() > 1) && (if kept.len()
                    > 1 {
                    cloze@ == "multi"@
                } else {
                    cloze@ == "a1"@
                }))
            }
        }),
{
    let ghost pred = |a: String| trim_of(a@).len() != 0;
    let mut answers: Vec<String> = Vec::new();
    let mut i: usize = 0;
    proof {
        reveal(Seq::filter);
        assert(q.answer@.take(0) =~= Seq::<String>::empty());
    }
    while i < q.answer.len()
        invariant
            i <= q.answer@.len(),
            pred == (|a: String| trim_of(a@).len() != 0),
            answers@ == q.answer@.take(i as int).filter(pred),
        decreases q.answer@.len() - i,
    {
        let av = chars_of_str(q.answer[i].as_str());
        let trimmed = trim_chars(&av);
        proof {
            reveal(Seq::filter);
            assert(q.answer@.take(i as int + 1).drop_last() =~= q.answer@.take(i as int));
            assert(q.answer@.take(i as int + 1).last() == q.answer@[i as int]);
        }
        if trimmed.len() > 0 {
            answers.push(q.answer[i].clone());
        }
        i = i + 1;
    }
    proof {
        assert(q.answer@.take(q.answer@.len() as int) =~= q.answer@);
    }
    let mut cards: Vec<FlashCardSource> = Vec::new();
    if answers.len() == 0 {
        return cards;
    }
    if answers.len() > 1 {
        cards.push(
            FlashCardSource::Question {
                row,
                cloze: String::from_str("multi"),
                answers,
                is_multi: true,
            },
        );
    } else {
        cards.push(
            FlashCardSource::Question {
                row,
                cloze: String::from_str("a1"),
                answers,
                is_multi: false,
            },
        );
    }
    cards
}

/// A running flashcard session: the ordered cards, the current position, and
/// whether the current card is revealed.
#[derive(Clone, Debug)]
pub struct FlashSession {
    pub cards: Vec<FlashCardSource>,
    pub pos: usize,
    pub revealed: bool,
}

/// A session is well-formed while its position points at a card.
pub open spec fn session_wf(s: FlashSession) -> bool {
    s.pos < s.cards@.len()
}

/// Opens a session over the given cards, hidden and at the first card; no
/// cards, no session.
pub fn flash_start_session(cards: Vec<FlashCardSource>) -> (r: Option<FlashSession>)
    ensures
        cards@.len() == 0 ==> r is None,
        cards@.len() > 0 ==> (r matches Some(s) && s.cards == cards && s.pos == 0 && !s.revealed
            && session_wf(s)),
{
    if cards.len() == 0 {
        None
    } else {
        Some(FlashSession { cards, pos: 0, revealed: false })
    }
}

/// Reveals the current card.
pub fn flash_reveal(s: &mut FlashSession)
    ensures
        final(s).revealed,
        final(s).cards == old(s).cards,
        final(s).pos == old(s).pos,
{
    s.revealed = true;
}

/// Moves to the next card, if any, hiding the answer again; at the last card
/// nothing changes.
pub fn flash_next(s: &mut FlashSession)
    requires
        session_wf(*old(s)),
    ensures
        old(s).pos + 1 < old(s).cards@.len() ==> final(s).pos == old(s).pos + 1 && !final(s).revealed,
        !(old(s).pos + 1 < old(s).cards@.len()) ==> *final(s) == *old(s),
        final(s).cards == old(s).cards,
{
    let n = s.cards.len();
    if s.pos < n - 1 {
        s.pos = s.pos + 1;
        s.revealed = false;
    }
}

/// Moves to the previous card, if any, hiding the answer again; at the first
/// card nothing changes.
pub fn flash_prev(s: &mut FlashSession)
    ensures
        old(s).pos > 0 ==> final(s).pos == old(s).pos - 1 && !final(s).revealed,
        old(s).pos == 0 ==> *final(s) == *old(s),
        final(s).cards == old(s).cards,
{
    if s.pos > 0 {
        s.pos = s.pos - 1;
        s.revealed = false;
    }
}

/// After grading, the session moves one card forward, wrapping to the first
/// card after the last, and hides the answer.
pub fn flash_advance_after_grade(s: &mut FlashSession)
    requires
        session_wf(*old(s)),
    ensures
        final(s).pos == (old(s).pos + 1) % (old(s).cards@.len() as int),
        !final(s).revealed,
        final(s).cards == old(s).cards,
        session_wf(*final(s)),
{
    let n = s.cards.len();
    assert(s.pos < n);
    s.pos = (s.pos + 1) % n;
    s.revealed = false;
}

/// The first per-blank schedule entry stored under a blank id.
pub open spec fn spec_lookup_cloze(m: Seq<(String, ExamState)>, id: Seq<char>) -> Option<ExamState>
    decreases m.len(),
{
    if m.len() == 0 {
        None
    } else if m[0].0@ == id {
        Some(m[0].1)
    } else {
        spec_lookup_cloze(m.drop_first(), id)
    }
}

/// The position of the first per-blank entry stored under a blank id.
pub open spec fn spec_index_of_cloze(m: Seq<(String, ExamState)>, id: Seq<char>) -> Option<int>
    decreases m.len(),
{
    if m.len() == 0 {
        None
    } else if m[0].0@ == id {
        Some(0)
    } else {
        match spec_index_of_cloze(m.drop_first(), id) {
            Some(i) => Some(i + 1),
            None => None,
        }
    }
}

pub proof fn lemma_lookup_index(m: Seq<(String, ExamState)>, id: Seq<char>)
    ensures
        spec_index_of_cloze(m, id) matches Some(i) ==> 0 <= i < m.len() && m[i].0@ == id
            && spec_lookup_cloze(m, id) == Some(m[i].1),
        spec_index_of_cloze(m, id) is None ==> spec_lookup_cloze(m, id) is None,
    decreases m.len(),
{
    if m.len() > 0 && m[0].0@ != id {
        lemma_lookup_index(m.drop_first(), id);
    }
}

/// Looks a blank id up in a per-blank schedule map.
pub fn lookup_cloze<'a>(m: &'a Vec<(String, ExamState)>, id: &str) -> (r: Option<&'a ExamState>)
    ensures
        match r {
            Some(e) => spec_lookup_cloze(m@, id@) == Some(*e),
            None => spec_lookup_cloze(m@, id@) is None,
        },
{
    let mut i: usize = 0;
    proof {
        assert(m@.skip(0) =~= m@);
    }
    while i < m.len()
        invariant
            i <= m@.len(),
            spec_lookup_cloze(m@, id@) == spec_lookup_cloze(m@.skip(i as int), id@),
        decreases m@.len() - i,
    {
        proof {
            assert(m@.skip(i as int)[0] == m@[i as int]);
            assert(m@.skip(i as int).drop_first() =~= m@.skip(i as int + 1));
        }
        if str_eq(m[i].0.as_str(), id) {
            return Some(&m[i].1);
        }
        i = i + 1;
    }
    proof {
        assert(m@.skip(m@.len() as int) =~= Seq::<(String, ExamState)>::empty());
    }
    None
}

/// How one grading event relates a (possibly absent) old schedule to the new
/// one: the streak, stage, interval and due move as `apply_exam_grade`
/// describes, the priority is kept, and the event is appended.
pub open spec fn graded_rel(
    oldx: Option<ExamState>,
    e: ExamState,
    grade: Grade,
    now: i64,
    deadline: Option<i64>,
) -> bool {
    &&& e.stage as int == next_stage(exam_stage(oldx), grade)
    &&& e.again_streak as int == next_streak(exam_streak(oldx), grade)
    &&& e.priority as int == exam_priority(oldx)
    &&& e.due == Some(
        (now + next_interval_secs(exam_stage(oldx), exam_streak(oldx), grade, now as int, deadline))
            as i64,
    )
    &&& e.history@ == exam_history(oldx).push(ReviewEvent { ts: now, grade })
}

/// Grades one blank of a per-blank schedule map: the entry is created lazily
/// with default values on first grading and updated in place afterwards;
/// every other entry is untouched.
pub fn grade_cloze_entry(
    m: &mut Vec<(String, ExamState)>,
    cloze: &str,
    grade: Grade,
    now: i64,
    deadline: Option<i64>,
)
    requires
        -TS_BOUND <= now <= TS_BOUND,
        deadline matches Some(dl) ==> -TS_BOUND <= dl <= TS_BOUND,
    ensures
        ({
            let old_m = old(m)@;
            match spec_index_of_cloze(old_m, cloze@) {
                Some(i) => {
                    &&& final(m)@.len() == old_m.len()
                    &&& forall|t: int| 0 <= t < old_m.len() && t != i ==> final(m)@[t] == old_m[t]
                    &&& final(m)@[i].0 == old_m[i].0
                    &&& graded_rel(Some(old_m[i].1), final(m)@[i].1, grade, now, deadline)
                },
                None => {
                    &&& final(m)@.len() == old_m.len() + 1
                    &&& forall|t: int| 0 <= t < old_m.len() ==> final(m)@[t] == old_m[t]
                    &&& final(m)@.last().0@ == cloze@
                    &&& graded_rel(None, final(m)@.last().1, grade, now, deadline)
                },
            }
        }),
{
    proof {
        lemma_lookup_index(old(m)@, cloze@);
    }
    // find the first entry under this id
    let mut i: usize = 0;
    let mut found: Option<usize> = None;
    proof {
        assert(m@.skip(0) =~= m@);
    }
    while i < m.len() && found.is_none()
        invariant
            i <= m@.len(),
            m@ == old(m)@,
            match found {
                Some(f) => f == i && spec_index_of_cloze(m@, cloze@) == Some(f as int),
                None => spec_index_of_cloze(m@, cloze@) == (match spec_index_of_cloze(
                    m@.skip(i as int),
                    cloze@,
                ) {
                    Some(t) => Some(t + i),
                    None => None::<int>,
                }),
            },
        decreases m@.len() - i, (match found {
            Some(_) => 0int,
            None => 1int,
        }),
    {
        proof {
            assert(m@.skip(i as int)[0] == m@[i as int]);
            assert(m@.skip(i as int).drop_first() =~= m@.skip(i as int + 1));
        }
        if str_eq(m[i].0.as_str(), cloze) {
            found = Some(i);
        } else {
            i = i + 1;
        }
    }
    match found {
        Some(f) => {
            let mut pair = m.remove(f);
            apply_exam_grade(&mut pair.1, grade, now, deadline);
            m.insert(f, pair);
            proof {
                lemma_lookup_index(old(m)@, cloze@);
                assert(old(m)@.remove(f as int).insert(f as int, m@[f as int]) =~= old(m)@.update(
                    f as int,
                    m@[f as int],
                ));
                assert(m@ =~= old(m)@.update(f as int, m@[f as int]));
            }
        },
        None => {
            proof {
                assert(m@.skip(m@.len() as int) =~= Seq::<(String, ExamState)>::empty());
            }
            let mut ex = default_exam_state();
            apply_exam_grade(&mut ex, grade, now, deadline);
            let key = String::from_str(cloze);
            m.push((key, ex));
        },
    }
}

/// One card's phase: a note card whose note is gone counts as new; otherwise
/// the phase of the per-blank entry of the owning note or question.
pub open spec fn spec_source_phase(
    card: FlashCardSource,
    notes: Seq<Note>,
    data: ErrorData,
) -> FlashCardPhase {
    match card {
        FlashCardSource::Note { note_idx, cloze } => if note_idx < notes.len() {
            spec_card_phase(spec_lookup_cloze(notes[note_idx as int].exam_by_cloze@, cloze@))
        } else {
            FlashCardPhase::New
        },
        FlashCardSource::Question { row, cloze, .. } => spec_card_phase(
            spec_lookup_cloze(spec_question_of(data, row).exam_by_cloze@, cloze@),
        ),
    }
}

/// The aggregate (new, learning, review) counts over a card list.
pub open spec fn spec_flashcard_counts(
    cards: Seq<FlashCardSource>,
    notes: Seq<Note>,
    data: ErrorData,
) -> (int, int, int)
    decreases cards.len(),
{
    if cards.len() == 0 {
        (0, 0, 0)
    } else {
        let r = spec_flashcard_counts(cards.drop_last(), notes, data);
        match spec_source_phase(cards.last(), notes, data) {
            FlashCardPhase::New => (r.0 + 1, r.1, r.2),
            FlashCardPhase::Learning => (r.0, r.1 + 1, r.2),
            FlashCardPhase::Review => (r.0, r.1, r.2 + 1),
        }
    }
}

/// Counts how many cards are new, still learning, and in review.
pub fn flashcard_counts(cards: &Vec<FlashCardSource>, notes: &Vec<Note>, data: &ErrorData) -> (r: (
    usize,
    usize,
    usize,
))
    requires
        forall|t: int|
            0 <= t < cards@.len() ==> ((#[trigger] cards@[t]) matches FlashCardSource::Question {
                row,
                ..
            } ==> row_valid(*data, row)),
    ensures
        (r.0 as int, r.1 as int, r.2 as int) == spec_flashcard_counts(cards@, notes@, *data),
{
    let mut n_new: usize = 0;
    let mut n_learning: usize = 0;
    let mut n_review: usize = 0;
    let mut k: usize = 0;
    while k < cards.len()
        invariant
            k <= cards@.len(),
            forall|t: int|
                0 <= t < cards@.len() ==> ((#[trigger] cards@[t])
                    matches FlashCardSource::Question { row, .. } ==> row_valid(*data, row)),
            n_new + n_learning + n_review == k,
            (n_new as int, n_learning as int, n_review as int) == spec_flashcard_counts(
                cards@.take(k as int),
                notes@,
                *data,
            ),
        decreases cards@.len() - k,
    {
        let phase = match &cards[k] {
            FlashCardSource::Note { note_idx, cloze } => {
                if *note_idx < notes.len() {
                    card_phase(lookup_cloze(&notes[*note_idx].exam_by_cloze, cloze.as_str()))
                } else {
                    FlashCardPhase::New
                }
            },
            FlashCardSource::Question { row, cloze, .. } => {
                let q = crate::data::get_question(data, row);
                card_phase(lookup_cloze(&q.exam_by_cloze, cloze.as_str()))
            },
        };
        proof {
            assert(cards@.take(k as int + 1).drop_last() =~= cards@.take(k as int));
            assert(cards@.take(k as int + 1).last() == cards@[k as int]);
        }
        match phase {
            FlashCardPhase::New => {
                n_new = n_new + 1;
            },
            FlashCardPhase::Learning => {
                n_learning = n_learning + 1;
            },
            FlashCardPhase::Review => {
                n_review = n_review + 1;
            },
        }
        k = k + 1;
    }
    proof {
        assert(cards@.take(cards@.len() as int) =~= cards@);
    }
    (n_new, n_learning, n_review)
}

} // verus!
