use errortk::cloze::{mask_cloze, parse_clozes};
use errortk::flash::{
    flash_advance_after_grade, flash_cards_from_note, flash_cards_from_question,
    flash_next, flash_prev, flash_reveal, flash_start_session, grade_cloze_entry,
    FlashCardSource,
};
use errortk::data::{default_status, Question, RowRef, SourceKind};
use errortk::schedule::Grade;

const HIDDEN: &str = "[\u{b7}\u{b7}\u{b7}]";

#[test]
fn parses_spans_in_order_with_duplicates() {
    let cs = parse_clozes("a {{c1::x}} b {{c2::y}} c {{c1::z}}");
    assert_eq!(cs.len(), 3);
    assert_eq!(cs[0].idx, "c1");
    assert_eq!(cs[0].text, "x");
    assert!(cs[0].hint.is_none());
    assert_eq!(cs[1].idx, "c2");
    assert_eq!(cs[1].text, "y");
    assert_eq!(cs[2].idx, "c1");
    assert_eq!(cs[2].text, "z");
}

#[test]
fn parses_hints() {
    let cs = parse_clozes("{{c12::answer::a hint}}");
    assert_eq!(cs.len(), 1);
    assert_eq!(cs[0].idx, "c12");
    assert_eq!(cs[0].text, "answer");
    assert_eq!(cs[0].hint.as_deref(), Some("a hint"));
}

#[test]
fn malformed_markup_is_not_extracted() {
    assert!(parse_clozes("{{c::x}}").is_empty());
    assert!(parse_clozes("{{c1:x}}").is_empty());
    assert!(parse_clozes("{{d1::x}}").is_empty());
    assert!(parse_clozes("{{c1::x}").is_empty());
    assert!(parse_clozes("{{c1::a\nb}}").is_empty());
    assert!(parse_clozes("plain text").is_empty());
}

#[test]
fn shortest_completion_wins() {
    let cs = parse_clozes("{{c1::a}}b}}");
    assert_eq!(cs.len(), 1);
    assert_eq!(cs[0].text, "a");
    // an empty text with a hint
    let cs2 = parse_clozes("{{c1::::h}}");
    assert_eq!(cs2.len(), 1);
    assert_eq!(cs2[0].text, "");
    assert_eq!(cs2[0].hint.as_deref(), Some("h"));
    // the hint keeps any further separators
    let cs3 = parse_clozes("{{c1::a::b::c}}");
    assert_eq!(cs3.len(), 1);
    assert_eq!(cs3[0].text, "a");
    assert_eq!(cs3[0].hint.as_deref(), Some("b::c"));
}

#[test]
fn extra_brace_shifts_the_match() {
    let cs = parse_clozes("{{{c1::x}}");
    assert_eq!(cs.len(), 1);
    assert_eq!(cs[0].text, "x");
}

#[test]
fn masking_hides_only_the_target_until_revealed() {
    let text = "q {{c1::foo}} m {{c2::bar}} e";
    let hidden = mask_cloze(text, "c2", false);
    assert_eq!(hidden, format!("q foo m {} e", HIDDEN));
    let revealed = mask_cloze(text, "c2", true);
    assert_eq!(revealed, "q foo m bar e");
    // the non-target always shows its literal text
    let other = mask_cloze(text, "c1", false);
    assert_eq!(other, format!("q {} m bar e", HIDDEN));
}

#[test]
fn masking_strips_hints_and_keeps_plain_text() {
    let text = "say {{c1::hello::greeting}}!";
    assert_eq!(mask_cloze(text, "c9", false), "say hello!");
    assert_eq!(mask_cloze(text, "c1", false), format!("say {}!", HIDDEN));
}

#[test]
fn one_card_per_unique_blank_in_first_appearance_order() {
    let cards = flash_cards_from_note(5, "{{c1::a}} {{c2::b}} {{c1::c}}");
    assert_eq!(cards.len(), 2);
    match &cards[0] {
        FlashCardSource::Note { note_idx, cloze } => {
            assert_eq!(*note_idx, 5);
            assert_eq!(cloze, "c1");
        },
        _ => panic!("expected a note card"),
    }
    match &cards[1] {
        FlashCardSource::Note { cloze, .. } => assert_eq!(cloze, "c2"),
        _ => panic!("expected a note card"),
    }
    assert!(flash_cards_from_note(0, "no blanks here").is_empty());
}

fn question_with_answers(answers: Vec<&str>) -> Question {
    Question {
        id: 1,
        origin_name: String::new(),
        sub_name: String::new(),
        qtype: 0,
        content: "stem".to_string(),
        options: Vec::new(),
        answer: answers.into_iter().map(|s| s.to_string()).collect(),
        analysis: String::new(),
        comments: Vec::new(),
        user_status: default_status(),
        last_reviewed: None,
        source: None,
        exam: None,
        exam_by_cloze: Vec::new(),
    }
}

#[test]
fn structured_answers_synthesize_cards() {
    let row = RowRef { src: SourceKind::Simulation, idx: 0 };
    // one non-blank answer: a single card under a1
    let q1 = question_with_answers(vec!["  ", "only"]);
    let cards = flash_cards_from_question(row, &q1);
    assert_eq!(cards.len(), 1);
    match &cards[0] {
        FlashCardSource::Question { cloze, answers, is_multi, .. } => {
            assert_eq!(cloze, "a1");
            assert_eq!(answers, &vec!["only".to_string()]);
            assert!(!is_multi);
        },
        _ => panic!("expected a question card"),
    }
    // several: one combined card under multi
    let q2 = question_with_answers(vec!["a", "b"]);
    let cards2 = flash_cards_from_question(row, &q2);
    assert_eq!(cards2.len(), 1);
    match &cards2[0] {
        FlashCardSource::Question { cloze, answers, is_multi, .. } => {
            assert_eq!(cloze, "multi");
            assert_eq!(answers.len(), 2);
            assert!(is_multi);
        },
        _ => panic!("expected a question card"),
    }
    // only blank answers: no card
    let q3 = question_with_answers(vec!["", "   "]);
    assert!(flash_cards_from_question(row, &q3).is_empty());
}

#[test]
fn session_moves_and_wraps() {
    let cards = flash_cards_from_note(0, "{{c1::a}} {{c2::b}}");
    assert!(flash_start_session(Vec::new()).is_none());
    let mut s = flash_start_session(cards).unwrap();
    assert_eq!(s.pos, 0);
    assert!(!s.revealed);
    flash_reveal(&mut s);
    assert!(s.revealed);
    flash_next(&mut s);
    assert_eq!(s.pos, 1);
    assert!(!s.revealed);
    // at the last card, next holds still
    flash_next(&mut s);
    assert_eq!(s.pos, 1);
    flash_prev(&mut s);
    assert_eq!(s.pos, 0);
    flash_prev(&mut s);
    assert_eq!(s.pos, 0);
    // grading advances with wrap-around and hides the answer
    flash_reveal(&mut s);
    flash_advance_after_grade(&mut s);
    assert_eq!(s.pos, 1);
    assert!(!s.revealed);
    flash_advance_after_grade(&mut s);
    assert_eq!(s.pos, 0);
}

#[test]
fn grading_a_blank_creates_its_entry_lazily() {
    let mut m: Vec<(String, errortk::schedule::ExamState)> = Vec::new();
    grade_cloze_entry(&mut m, "c1", Grade::Good, 1000, None);
    assert_eq!(m.len(), 1);
    assert_eq!(m[0].0, "c1");
    assert_eq!(m[0].1.stage, 1);
    assert_eq!(m[0].1.due, Some(1000 + 172_800));
    // a second grade updates the same entry in place
    grade_cloze_entry(&mut m, "c1", Grade::Again, 2000, None);
    assert_eq!(m.len(), 1);
    assert_eq!(m[0].1.stage, 0);
    assert_eq!(m[0].1.again_streak, 1);
    assert_eq!(m[0].1.due, Some(2000 + 600));
    assert_eq!(m[0].1.history.len(), 2);
    // a different blank gets its own independent entry
    grade_cloze_entry(&mut m, "c2", Grade::Hard, 3000, None);
    assert_eq!(m.len(), 2);
    assert_eq!(m[1].0, "c2");
    assert_eq!(m[0].1.again_streak, 1);
}

#[test]
fn empty_text_and_newline_bound_hints() {
    let cs = parse_clozes("{{c1::}}");
    assert_eq!(cs.len(), 1);
    assert_eq!(cs[0].text, "");
    assert!(cs[0].hint.is_none());
    // a span cannot cross a line break: the first opener finds no close
    // before the newline, and only the second span matches
    let cs2 = parse_clozes("{{c1::a::h\n}} {{c1::b}}");
    assert_eq!(cs2.len(), 1);
    assert_eq!(cs2[0].text, "b");
}
