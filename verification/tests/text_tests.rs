use errortk::data::{default_status, OptionItem, Question};
use errortk::flash::{flashcard_counts, FlashCardSource};
use errortk::data::{ErrorData, Meta, RowRef, SourceKind};
use errortk::keymap::{action_from_str, default_keymap, keymap_lookup, parse_keymap, KeyAction};
use errortk::notes::Note;
use errortk::schedule::default_exam_state;
use errortk::strutil::{dec_string_i64, dec_string_u64, join_strings};
use errortk::textbuf::{backspace, insert_char, wrap_flat_lines, Editor, format_question_options, format_question_schedule};
use errortk::view::question_matches;

#[test]
fn editor_inserts_and_deletes_at_the_cursor() {
    let mut ed = Editor::new_new(9, "ab".to_string());
    assert_eq!(ed.cursor, 2);
    assert_eq!(ed.new_note_qid, Some(9));
    insert_char(&mut ed, 'c');
    assert_eq!(ed.buffer, "abc");
    assert_eq!(ed.cursor, 3);
    backspace(&mut ed);
    backspace(&mut ed);
    assert_eq!(ed.buffer, "a");
    assert_eq!(ed.cursor, 1);
    backspace(&mut ed);
    backspace(&mut ed);
    assert_eq!(ed.buffer, "");
    assert_eq!(ed.cursor, 0);
    let mut ed2 = Editor::new_edit("xyz".to_string(), 4);
    assert_eq!(ed2.target_note_index, Some(4));
    ed2.cursor = 1;
    insert_char(&mut ed2, 'Q');
    assert_eq!(ed2.buffer, "xQyz");
}

#[test]
fn wrapping_respects_display_width() {
    // a CJK character is two columns wide: at width 3 it cannot share a row
    // with two ASCII characters
    let lines = vec!["ab\u{4f60}".to_string()];
    let (wrapped, counts) = wrap_flat_lines(&lines, 3);
    assert_eq!(wrapped, vec!["ab".to_string(), "\u{4f60}".to_string()]);
    assert_eq!(counts, vec![2]);
    // control characters are zero columns wide
    let lines2 = vec!["a\u{0}b".to_string()];
    let (wrapped2, counts2) = wrap_flat_lines(&lines2, 1);
    assert_eq!(wrapped2, vec!["a\u{0}".to_string(), "b".to_string()]);
    assert_eq!(counts2, vec![2]);
    // an empty line still takes one display row
    let lines3 = vec!["".to_string(), "xy".to_string()];
    let (wrapped3, counts3) = wrap_flat_lines(&lines3, 80);
    assert_eq!(wrapped3, vec!["".to_string(), "xy".to_string()]);
    assert_eq!(counts3, vec![1, 1]);
}

fn bare_question() -> Question {
    Question {
        id: 3,
        origin_name: String::new(),
        sub_name: String::new(),
        qtype: 0,
        content: String::new(),
        options: Vec::new(),
        answer: Vec::new(),
        analysis: String::new(),
        comments: Vec::new(),
        user_status: default_status(),
        last_reviewed: None,
        source: None,
        exam: None,
        exam_by_cloze: Vec::new(),
    }
}

#[test]
fn option_and_schedule_rendering() {
    let mut q = bare_question();
    assert_eq!(format_question_options(&q), "");
    q.options = vec![
        OptionItem { label: "A".to_string(), content: "first".to_string() },
        OptionItem { label: "B".to_string(), content: "second".to_string() },
    ];
    assert_eq!(format_question_options(&q), "A. first\nB. second");
    assert_eq!(format_question_schedule(&q), "stage:? priority:? due:?");
    let mut ex = default_exam_state();
    ex.stage = 2;
    ex.due = Some(-5);
    q.exam = Some(ex);
    assert_eq!(format_question_schedule(&q), "stage:2 priority:1 due:-5");
    let mut ex2 = default_exam_state();
    ex2.stage = 250;
    ex2.due = None;
    q.exam = Some(ex2);
    assert_eq!(format_question_schedule(&q), "stage:250 priority:1 due:-");
}

#[test]
fn decimal_rendering() {
    assert_eq!(dec_string_u64(0), "0");
    assert_eq!(dec_string_u64(1234567890), "1234567890");
    assert_eq!(dec_string_i64(-1), "-1");
    assert_eq!(dec_string_i64(i64::MIN), "-9223372036854775808");
    assert_eq!(dec_string_i64(i64::MAX), "9223372036854775807");
    let parts = vec!["a".to_string(), "b".to_string(), "c".to_string()];
    assert_eq!(join_strings(&parts, ", "), "a, b, c");
    assert_eq!(join_strings(&Vec::new(), ", "), "");
}

#[test]
fn question_search_is_case_insensitive_over_all_fields() {
    let mut q = bare_question();
    q.content = "The Mitochondria".to_string();
    q.analysis = "POWERHOUSE of the cell".to_string();
    q.answer = vec!["Energy".to_string()];
    q.comments = vec!["remember THIS".to_string()];
    assert!(question_matches(&q, "mitochondria"));
    assert!(question_matches(&q, "powerhouse"));
    assert!(question_matches(&q, "energy"));
    assert!(question_matches(&q, "this"));
    assert!(!question_matches(&q, "absent"));
}

#[test]
fn keymap_actions_parse_by_name() {
    assert_eq!(action_from_str("grade_again"), Some(KeyAction::GradeAgain));
    assert_eq!(action_from_str("toggle_notes_fold"), Some(KeyAction::ToggleNotesFold));
    assert_eq!(action_from_str("nonsense"), None);
}

#[test]
fn keymap_parsing_keeps_single_chars_and_falls_back() {
    let pairs = vec![
        ("z".to_string(), "grade_again".to_string()),
        ("zz".to_string(), "grade_hard".to_string()),
        ("q".to_string(), "bogus".to_string()),
        ("z".to_string(), "grade_easy".to_string()),
    ];
    let m = parse_keymap(&pairs);
    assert_eq!(m.len(), 1);
    assert_eq!(m[0], ('z', KeyAction::GradeEasy));
    // nothing usable: the default bindings apply
    let empty = parse_keymap(&Vec::new());
    assert_eq!(empty.len(), 23);
    assert_eq!(keymap_lookup(&empty, 'v'), Some(KeyAction::VisualToggle));
    assert_eq!(keymap_lookup(&empty, 'z'), Some(KeyAction::GradeAgain));
    assert_eq!(keymap_lookup(&empty, '?'), None);
    let d = default_keymap();
    assert_eq!(keymap_lookup(&d, 'D'), Some(KeyAction::ToggleDueOnly));
}

#[test]
fn flashcard_phase_tallies() {
    let mut learning = default_exam_state();
    learning.stage = 0;
    let mut review = default_exam_state();
    review.stage = 3;
    let mut n = Note {
        id: "n1".to_string(),
        qid: 1,
        title: String::new(),
        parent_id: None,
        excerpt: String::new(),
        content: String::new(),
        tags: Vec::new(),
        created_at: String::new(),
        updated_at: String::new(),
        exam: None,
        exam_by_cloze: Vec::new(),
    };
    n.exam_by_cloze.push(("c1".to_string(), learning));
    n.exam_by_cloze.push(("c2".to_string(), review));
    let notes = vec![n];
    let mut q = bare_question();
    q.exam_by_cloze.push(("a1".to_string(), {
        let mut e = default_exam_state();
        e.stage = 1;
        e
    }));
    let data = ErrorData {
        meta: Meta { last_sync: None, version: None },
        simulation: vec![q],
        real: Vec::new(),
        famous: Vec::new(),
    };
    let row = RowRef { src: SourceKind::Simulation, idx: 0 };
    let cards = vec![
        FlashCardSource::Note { note_idx: 0, cloze: "c1".to_string() },
        FlashCardSource::Note { note_idx: 0, cloze: "c2".to_string() },
        FlashCardSource::Note { note_idx: 0, cloze: "c9".to_string() },
        FlashCardSource::Note { note_idx: 7, cloze: "c1".to_string() },
        FlashCardSource::Question {
            row,
            cloze: "a1".to_string(),
            answers: vec!["x".to_string()],
            is_multi: false,
        },
    ];
    let (new_n, learn_n, review_n) = flashcard_counts(&cards, &notes, &data);
    // c9 has no entry and note 7 is gone: both count as new
    assert_eq!((new_n, learn_n, review_n), (2, 1, 2));
}
