use errortk::data::{
    default_status, grade_question_row, ErrorData, Meta, Question, RowRef, SourceKind,
};
use errortk::order::build_rows;
use errortk::schedule::{default_exam_state, ExamState, Grade};
use errortk::view::status_counts;

fn question(id: i64, due: Option<i64>) -> Question {
    let exam = due.map(|d| {
        let mut ex = default_exam_state();
        ex.due = Some(d);
        ex
    });
    Question {
        id,
        origin_name: String::new(),
        sub_name: String::new(),
        qtype: 0,
        content: String::new(),
        options: Vec::new(),
        answer: Vec::new(),
        analysis: String::new(),
        comments: Vec::new(),
        user_status: default_status(),
        last_reviewed: None,
        source: None,
        exam,
        exam_by_cloze: Vec::new(),
    }
}

fn data_with(sim: Vec<Question>) -> ErrorData {
    ErrorData {
        meta: Meta { last_sync: None, version: None },
        simulation: sim,
        real: Vec::new(),
        famous: Vec::new(),
    }
}

fn idxs(rows: &[RowRef]) -> Vec<usize> {
    rows.iter().map(|r| r.idx).collect()
}

#[test]
fn due_rows_ascend_then_undated_in_source_order() {
    let data = data_with(vec![
        question(0, Some(30)),
        question(1, None),
        question(2, Some(10)),
        question(3, Some(20)),
        question(4, None),
    ]);
    let rows = build_rows(&data, &vec![SourceKind::Simulation], false, 0, 0);
    assert_eq!(idxs(&rows), vec![2, 3, 0, 1, 4]);
    assert!(rows.iter().all(|r| r.src == SourceKind::Simulation));
}

#[test]
fn equal_dues_keep_source_order() {
    let data = data_with(vec![
        question(0, Some(5)),
        question(1, Some(5)),
        question(2, Some(1)),
    ]);
    let rows = build_rows(&data, &vec![SourceKind::Simulation], false, 0, 0);
    assert_eq!(idxs(&rows), vec![2, 0, 1]);
}

#[test]
fn daily_limit_truncates_and_zero_means_unlimited() {
    let data = data_with(vec![
        question(0, Some(3)),
        question(1, Some(1)),
        question(2, Some(2)),
        question(3, None),
    ]);
    let all = build_rows(&data, &vec![SourceKind::Simulation], false, 0, 0);
    assert_eq!(all.len(), 4);
    let two = build_rows(&data, &vec![SourceKind::Simulation], false, 0, 2);
    assert_eq!(idxs(&two), vec![1, 2]);
    let many = build_rows(&data, &vec![SourceKind::Simulation], false, 0, 99);
    assert_eq!(many.len(), 4);
}

#[test]
fn due_only_keeps_rows_due_at_or_before_now() {
    let data = data_with(vec![
        question(0, Some(30)),
        question(1, None),
        question(2, Some(10)),
        question(3, Some(25)),
    ]);
    let rows = build_rows(&data, &vec![SourceKind::Simulation], true, 25, 0);
    assert_eq!(idxs(&rows), vec![2, 3]);
}

#[test]
fn unselected_sources_are_excluded() {
    let mut data = data_with(vec![question(0, Some(1))]);
    data.real = vec![question(10, Some(2))];
    data.famous = vec![question(20, Some(3))];
    let rows = build_rows(&data, &vec![SourceKind::Real, SourceKind::Famous], false, 0, 0);
    assert_eq!(rows.len(), 2);
    assert_eq!(rows[0].src, SourceKind::Real);
    assert_eq!(rows[1].src, SourceKind::Famous);
}

#[test]
fn rederivation_gives_the_same_rows() {
    let data = data_with(vec![
        question(0, Some(7)),
        question(1, None),
        question(2, Some(3)),
    ]);
    let a = build_rows(&data, &vec![SourceKind::Simulation], false, 0, 0);
    let b = build_rows(&data, &vec![SourceKind::Simulation], false, 0, 0);
    assert_eq!(idxs(&a), idxs(&b));
}

#[test]
fn grading_moves_a_row_in_the_rederived_order() {
    let mut data = data_with(vec![question(0, Some(5)), question(1, Some(9))]);
    let before = build_rows(&data, &vec![SourceKind::Simulation], false, 0, 0);
    assert_eq!(idxs(&before), vec![0, 1]);
    // grading row 0 pushes its due time far past row 1's
    let rr = RowRef { src: SourceKind::Simulation, idx: 0 };
    grade_question_row(&mut data, &rr, Grade::Good, 100, None);
    let after = build_rows(&data, &vec![SourceKind::Simulation], false, 0, 0);
    assert_eq!(idxs(&after), vec![1, 0]);
}

#[test]
fn grading_links_mastery_status() {
    let mut data = data_with(vec![question(0, None)]);
    let rr = RowRef { src: SourceKind::Simulation, idx: 0 };
    grade_question_row(&mut data, &rr, Grade::Good, 100, None);
    assert_eq!(data.simulation[0].user_status, "reviewing");
    assert_eq!(data.simulation[0].last_reviewed, Some(100));
    data.simulation[0].user_status = "mastered".to_string();
    grade_question_row(&mut data, &rr, Grade::Easy, 200, None);
    assert_eq!(data.simulation[0].user_status, "mastered");
    grade_question_row(&mut data, &rr, Grade::Again, 300, None);
    assert_eq!(data.simulation[0].user_status, "reviewing");
    let mut fresh_q = data_with(vec![question(0, None)]);
    grade_question_row(&mut fresh_q, &rr, Grade::Again, 50, None);
    assert_eq!(fresh_q.simulation[0].user_status, "new");
}

#[test]
fn status_tallies() {
    let mut data = data_with(vec![question(0, None), question(1, None), question(2, None)]);
    data.simulation[1].user_status = "reviewing".to_string();
    data.simulation[2].user_status = "mastered".to_string();
    let rows = build_rows(&data, &vec![SourceKind::Simulation], false, 0, 0);
    let (n, r, m) = status_counts(&data, &rows);
    assert_eq!((n, r, m), (1, 1, 1));
}

#[test]
fn source_tags() {
    assert_eq!(SourceKind::Simulation.as_str(), "simulation");
    assert_eq!(SourceKind::Real.as_str(), "real");
    assert_eq!(SourceKind::Famous.as_str(), "famous");
    assert_eq!(default_status(), "new");
}

#[test]
fn empty_result_is_not_an_error() {
    let data = data_with(Vec::new());
    let rows = build_rows(&data, &vec![SourceKind::Simulation], false, 0, 0);
    assert!(rows.is_empty());
    let _ = ExamState { ..default_exam_state() };
}

#[test]
fn toggling_sources_falls_back_to_the_default_pair() {
    let mut filter = vec![SourceKind::Simulation, SourceKind::Real];
    errortk::data::toggle_source(&mut filter, SourceKind::Famous);
    assert_eq!(filter, vec![SourceKind::Simulation, SourceKind::Real, SourceKind::Famous]);
    errortk::data::toggle_source(&mut filter, SourceKind::Simulation);
    assert_eq!(filter, vec![SourceKind::Real, SourceKind::Famous]);
    let mut single = vec![SourceKind::Famous];
    errortk::data::toggle_source(&mut single, SourceKind::Famous);
    assert_eq!(single, vec![SourceKind::Simulation, SourceKind::Real]);
}

#[test]
fn selection_moves_clamp_to_the_list() {
    let move_note_selection = errortk::view::move_note_selection;
    assert_eq!(move_note_selection(None, 1, 0), None);
    assert_eq!(move_note_selection(None, 1, 3), Some(0));
    assert_eq!(move_note_selection(Some(0), -1, 3), Some(0));
    assert_eq!(move_note_selection(Some(1), 1, 3), Some(2));
    assert_eq!(move_note_selection(Some(2), 5, 3), Some(2));
}
