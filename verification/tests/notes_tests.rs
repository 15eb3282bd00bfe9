use errortk::notes::{
    build_note_order, derive_note_title, grade_note, new_note, note_display_title,
    note_excerpt_head, note_matches_query, Note,
};
use errortk::schedule::Grade;
use errortk::view::{note_view, NotesFoldMode};

fn note(id: &str, title: &str, parent: Option<&str>, created: &str) -> Note {
    Note {
        id: id.to_string(),
        qid: 1,
        title: title.to_string(),
        parent_id: parent.map(|s| s.to_string()),
        excerpt: String::new(),
        content: String::new(),
        tags: Vec::new(),
        created_at: created.to_string(),
        updated_at: created.to_string(),
        exam: None,
        exam_by_cloze: Vec::new(),
    }
}

#[test]
fn titles_derive_from_first_nonblank_line() {
    assert_eq!(derive_note_title("\n   \n  Hello World  \nmore", 7), "Hello World");
    assert_eq!(derive_note_title("   \n\t\n", 7), "Note 7");
    assert_eq!(derive_note_title("", -3), "Note -3");
    let mut n = note("n1", "  ", None, "2024");
    n.excerpt = "\n first line \nsecond".to_string();
    assert_eq!(note_display_title(&n), "first line");
    n.title = "  Typed Title ".to_string();
    assert_eq!(note_display_title(&n), "Typed Title");
    assert_eq!(note_excerpt_head(&n), "");
    n.excerpt = "  head line \r\nrest".to_string();
    assert_eq!(note_excerpt_head(&n), "head line");
}

#[test]
fn search_is_case_insensitive_over_title_excerpt_content() {
    let mut n = note("n1", "Greek ALPHABET", None, "2024");
    n.content = "beta GAMMA".to_string();
    assert!(note_matches_query(&n, "alphabet"));
    assert!(note_matches_query(&n, "gamma"));
    assert!(!note_matches_query(&n, "delta"));
}

#[test]
fn every_note_appears_once_and_cycles_surface_at_root() {
    // A(root), B(parent A), C(parent B), D(parent D: a self-cycle)
    let notes = vec![
        note("A", "a", None, "1"),
        note("B", "b", Some("A"), "2"),
        note("C", "c", Some("B"), "3"),
        note("D", "d", Some("D"), "4"),
    ];
    let (order, depths) = build_note_order(&notes, None);
    assert_eq!(order, vec![0, 1, 2, 3]);
    assert_eq!(depths, vec![0, 1, 2, 0]);
}

#[test]
fn deeper_cycles_collapse_to_root_level_once_each() {
    // X and Y point at each other; Z is a plain root
    let notes = vec![
        note("X", "x", Some("Y"), "1"),
        note("Y", "y", Some("X"), "2"),
        note("Z", "z", None, "3"),
    ];
    let (order, depths) = build_note_order(&notes, None);
    // Z is the only root; X surfaces first in index order and pulls Y beneath it
    assert_eq!(order, vec![2, 0, 1]);
    assert_eq!(depths, vec![0, 0, 1]);
}

#[test]
fn dangling_parent_means_root() {
    let notes = vec![note("A", "a", Some("GONE"), "1"), note("B", "b", None, "2")];
    let (order, depths) = build_note_order(&notes, None);
    assert_eq!(order, vec![0, 1]);
    assert_eq!(depths, vec![0, 0]);
}

#[test]
fn siblings_sort_by_lowercased_title_then_creation() {
    let notes = vec![
        note("1", "banana", None, "5"),
        note("2", "APPLE", None, "9"),
        note("3", "apple", None, "3"),
    ];
    let (order, _) = build_note_order(&notes, None);
    // "apple" twice (created "3" before "9"), then "banana"
    assert_eq!(order, vec![2, 1, 0]);
}

#[test]
fn anchor_fold_expands_the_ancestor_chain_only() {
    // A(root) > B > C, and E(root) > F
    let notes = vec![
        note("A", "a", None, "1"),
        note("B", "b", Some("A"), "2"),
        note("C", "c", Some("B"), "3"),
        note("E", "e", None, "4"),
        note("F", "f", Some("E"), "5"),
    ];
    // anchored at C's parent chain: rows show A > B > C and the collapsed E
    let (order, depths, sel) =
        note_view(&notes, NotesFoldMode::CurrentParent, None, Some(2));
    assert_eq!(order, vec![0, 1, 2, 3]);
    assert_eq!(depths, vec![0, 1, 2, 0]);
    // the anchored note stays selected
    assert_eq!(sel, Some(2));
}

#[test]
fn full_fold_shows_everything() {
    let notes = vec![
        note("A", "a", None, "1"),
        note("B", "b", Some("A"), "2"),
        note("E", "e", None, "3"),
        note("F", "f", Some("E"), "4"),
    ];
    let (order, depths, sel) = note_view(&notes, NotesFoldMode::Full, None, None);
    assert_eq!(order, vec![0, 1, 2, 3]);
    assert_eq!(depths, vec![0, 1, 0, 1]);
    assert_eq!(sel, Some(0));
}

#[test]
fn note_search_bypasses_hierarchy() {
    let mut a = note("A", "alpha", None, "1");
    a.content = "find ME here".to_string();
    let b = note("B", "beta", Some("A"), "2");
    let mut c = note("C", "gamma", None, "3");
    c.excerpt = "also me".to_string();
    let notes = vec![a, b, c];
    let q = "me".to_string();
    let (order, depths, sel) = note_view(&notes, NotesFoldMode::Full, Some(&q), Some(2));
    assert_eq!(order, vec![0, 2]);
    assert_eq!(depths, vec![0, 0]);
    // the previously selected note keeps its selection at its new position
    assert_eq!(sel, Some(1));
    // no match: empty view, nothing selected
    let qq = "zzz".to_string();
    let (order2, _, sel2) = note_view(&notes, NotesFoldMode::Full, Some(&qq), None);
    assert!(order2.is_empty());
    assert_eq!(sel2, None);
}

#[test]
fn new_note_derives_its_identity_and_title() {
    let n = new_note(42, " First\nRest".to_string(), "body".to_string(), "2024-01-01T00:00:00Z".to_string(), 1700000000123);
    assert_eq!(n.id, "n-42-1700000000123");
    assert_eq!(n.title, "First");
    assert_eq!(n.qid, 42);
    assert!(n.parent_id.is_none());
    assert_eq!(n.created_at, "2024-01-01T00:00:00Z");
    assert!(n.exam.is_none());
    assert!(n.exam_by_cloze.is_empty());
}

#[test]
fn grading_a_note_schedules_it_and_stamps_the_update() {
    let mut n = note("A", "a", None, "1");
    grade_note(&mut n, Grade::Good, 1000, "stamp".to_string());
    let ex = n.exam.as_ref().unwrap();
    assert_eq!(ex.stage, 1);
    assert_eq!(ex.due, Some(1000 + 172_800));
    assert_eq!(n.updated_at, "stamp");
}
