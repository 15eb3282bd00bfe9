//! The key-to-action map: the named actions, parsing a user-supplied binding
//! table, and the built-in default bindings.

use vstd::prelude::*;
use crate::strutil::str_eq;

verus! {

/// Every action a single key can be bound to.
#[derive(Clone, Copy, Debug, PartialEq, Eq, Structural)]
pub enum KeyAction {
    ToggleAnswerCurrent,
    ToggleAnswerGlobal,
    ToggleCommentsCurrent,
    ToggleCommentsGlobal,
    ToggleSourceSim,
    ToggleSourceReal,
    ToggleSourceFamous,
    MarkNew,
    MarkReviewing,
    MarkMastered,
    GradeAgain,
    GradeHard,
    GradeGood,
    GradeEasy,
    ToggleDueOnly,
    Reload,
    VisualToggle,
    VisualLineToggle,
    EnterText,
    ExitText,
    MoveLeft,
    MoveRight,
    MoveUpDetail,
    MoveDownDetail,
    YankToNote,
    SwitchLeftPanel,
    ResizeLeftShrink,
    ResizeLeftExpand,
    ToggleNotesFold,
    RunScraper,
    NoteOpen,
    NoteEdit,
    NoteDelete,
    ScrollPageDown,
    ScrollPageUp,
    ScrollLineDown,
    ScrollLineUp,
    FlashStart,
    FlashReveal,
    FlashNext,
    FlashPrev,
}

/// The action a configuration name denotes, if any.
pub open spec fn spec_action_from_str(s: Seq<char>) -> Option<KeyAction> {
    if s == "toggle_answer_current"@ {
        Some(KeyAction::ToggleAnswerCurrent)
    } else if s == "toggle_answer_global"@ {
        Some(KeyAction::ToggleAnswerGlobal)
    } else if s == "toggle_comments_current"@ {
        Some(KeyAction::ToggleCommentsCurrent)
    } else if s == "toggle_comments_global"@ {
        Some(KeyAction::ToggleCommentsGlobal)
    } else if s == "toggle_source_sim"@ {
        Some(KeyAction::ToggleSourceSim)
    } else if s == "toggle_source_real"@ {
        Some(KeyAction::ToggleSourceReal)
    } else if s == "toggle_source_famous"@ {
        Some(KeyAction::ToggleSourceFamous)
    } else if s == "mark_new"@ {
        Some(KeyAction::MarkNew)
    } else if s == "mark_reviewing"@ {
        Some(KeyAction::MarkReviewing)
    } else if s == "mark_mastered"@ {
        Some(KeyAction::MarkMastered)
    } else if s == "grade_again"@ {
        Some(KeyAction::GradeAgain)
    } else if s == "grade_hard"@ {
        Some(KeyAction::GradeHard)
    } else if s == "grade_good"@ {
        Some(KeyAction::GradeGood)
    } else if s == "grade_easy"@ {
        Some(KeyAction::GradeEasy)
    } else if s == "toggle_due_only"@ {
        Some(KeyAction::ToggleDueOnly)
    } else if s == "reload"@ {
        Some(KeyAction::Reload)
    } else if s == "visual_toggle"@ {
        Some(KeyAction::VisualToggle)
    } else if s == "visual_line_toggle"@ {
        Some(KeyAction::VisualLineToggle)
    } else if s == "enter_text"@ {
        Some(KeyAction::EnterText)
    } else if s == "exit_text"@ {
        Some(KeyAction::ExitText)
    } else if s == "left"@ {
        Some(KeyAction::MoveLeft)
    } else if s == "right"@ {
        Some(KeyAction::MoveRight)
    } else if s == "up_detail"@ {
        Some(KeyAction::MoveUpDetail)
    } else if s == "down_detail"@ {
        Some(KeyAction::MoveDownDetail)
    } else if s == "yank_to_note"@ {
        Some(KeyAction::YankToNote)
    } else if s == "toggle_notes_fold"@ {
        Some(KeyAction::ToggleNotesFold)
    } else if s == "run_scraper"@ {
        Some(KeyAction::RunScraper)
    } else {
        None
    }
}

/// Parses one configuration name into its action.
pub fn action_from_str(s: &str) -> (r: Option<KeyAction>)
    ensures
        r == spec_action_from_str(s@),
{
    if str_eq(s, "toggle_answer_current") {
        Some(KeyAction::ToggleAnswerCurrent)
    } else if str_eq(s, "toggle_answer_global") {
        Some(KeyAction::ToggleAnswerGlobal)
    } else if str_eq(s, "toggle_comments_current") {
        Some(KeyAction::ToggleCommentsCurrent)
    } else if str_eq(s, "toggle_comments_global") {
        Some(KeyAction::ToggleCommentsGlobal)
    } else if str_eq(s, "toggle_source_sim") {
        Some(KeyAction::ToggleSourceSim)
    } else if str_eq(s, "toggle_source_real") {
        Some(KeyAction::ToggleSourceReal)
    } else if str_eq(s, "toggle_source_famous") {
        Some(KeyAction::ToggleSourceFamous)
    } else if str_eq(s, "mark_new") {
        Some(KeyAction::MarkNew)
    } else if str_eq(s, "mark_reviewing") {
        Some(KeyAction::MarkReviewing)
    } else if str_eq(s, "mark_mastered") {
        Some(KeyAction::MarkMastered)
    } else if str_eq(s, "grade_again") {
        Some(KeyAction::GradeAgain)
    } else if str_eq(s, "grade_hard") {
        Some(KeyAction::GradeHard)
    } else if str_eq(s, "grade_good") {
        Some(KeyAction::GradeGood)
    } else if str_eq(s, "grade_easy") {
        Some(KeyAction::GradeEasy)
    } else if str_eq(s, "toggle_due_only") {
        Some(KeyAction::ToggleDueOnly)
    } else if str_eq(s, "reload") {
        Some(KeyAction::Reload)
    } else if str_eq(s, "visual_toggle") {
        Some(KeyAction::VisualToggle)
    } else if str_eq(s, "visual_line_toggle") {
        Some(KeyAction::VisualLineToggle)
    } else if str_eq(s, "enter_text") {
        Some(KeyAction::EnterText)
    } else if str_eq(s, "exit_text") {
        Some(KeyAction::ExitText)
    } else if str_eq(s, "left") {
        Some(KeyAction::MoveLeft)
    } else if str_eq(s, "right") {
        Some(KeyAction::MoveRight)
    } else if str_eq(s, "up_detail") {
        Some(KeyAction::MoveUpDetail)
    } else if str_eq(s, "down_detail") {
        Some(KeyAction::MoveDownDetail)
    } else if str_eq(s, "yank_to_note") {
        Some(KeyAction::YankToNote)
    } else if str_eq(s, "toggle_notes_fold") {
        Some(KeyAction::ToggleNotesFold)
    } else if str_eq(s, "run_scraper") {
        Some(KeyAction::RunScraper)
    } else {
        None
    }
}

/// The position of a key in a binding list, if bound.
pub open spec fn spec_index_of_key(m: Seq<(char, KeyAction)>, ch: char) -> Option<int>
    decreases m.len(),
{
    if m.len() == 0 {
        None
    } else if m[0].0 == ch {
        Some(0)
    } else {
        match spec_index_of_key(m.drop_first(), ch) {
            Some(i) => Some(i + 1),
            None => None,
        }
    }
}

pub proof fn lemma_index_of_key(m: Seq<(char, KeyAction)>, ch: char)
    ensures
        spec_index_of_key(m, ch) matches Some(i) ==> 0 <= i < m.len() && m[i].0 == ch,
    decreases m.len(),
{
    if m.len() > 0 && m[0].0 != ch {
        lemma_index_of_key(m.drop_first(), ch);
    }
}

/// A binding list with `ch` bound to `a`: an existing binding of the key is
/// replaced in place, a new key is appended.
pub open spec fn spec_upsert(m: Seq<(char, KeyAction)>, ch: char, a: KeyAction) -> Seq<
    (char, KeyAction),
> {
    match spec_index_of_key(m, ch) {
        Some(i) => m.update(i, (ch, a)),
        None => m.push((ch, a)),
    }
}

/// The binding list a table of (key, action name) entries denotes, walking
/// the entries in order: only single-character keys with known action names
/// bind, and a later entry for the same key wins.
pub open spec fn spec_parse_pairs(ps: Seq<(String, String)>, k: int) -> Seq<(char, KeyAction)>
    decreases k,
{
    if k <= 0 {
        Seq::empty()
    } else {
        let m = spec_parse_pairs(ps, k - 1);
        let key = ps[k - 1].0;
        let val = ps[k - 1].1;
        if key@.len() == 1 {
            match spec_action_from_str(val@) {
                Some(a) => spec_upsert(m, key@[0], a),
                None => m,
            }
        } else {
            m
        }
    }
}

/// The built-in bindings.
pub open spec fn spec_default_keymap() -> Seq<(char, KeyAction)> {
    seq![
        ('a', KeyAction::ToggleAnswerCurrent),
        ('A', KeyAction::ToggleAnswerGlobal),
        ('c', KeyAction::ToggleCommentsCurrent),
        ('C', KeyAction::ToggleCommentsGlobal),
        ('1', KeyAction::ToggleSourceSim),
        ('2', KeyAction::ToggleSourceReal),
        ('3', KeyAction::ToggleSourceFamous),
        ('n', KeyAction::MarkNew),
        ('r', KeyAction::MarkReviewing),
        ('m', KeyAction::MarkMastered),
        ('z', KeyAction::GradeAgain),
        ('x', KeyAction::GradeHard),
        ('g', KeyAction::GradeGood),
        ('v', KeyAction::VisualToggle),
        ('S', KeyAction::RunScraper),
        ('D', KeyAction::ToggleDueOnly),
        ('R', KeyAction::Reload),
        ('h', KeyAction::MoveLeft),
        ('l', KeyAction::MoveRight),
        ('j', KeyAction::MoveDownDetail),
        ('k', KeyAction::MoveUpDetail),
        ('y', KeyAction::YankToNote),
        ('o', KeyAction::ToggleNotesFold),
    ]
}

/// The built-in bindings: each key bound once; `v` ends up on the visual
/// toggle, which overrode its earlier grading binding.
pub fn default_keymap() -> (m: Vec<(char, KeyAction)>)
    ensures
        m@ == spec_default_keymap(),
{
    let mut m: Vec<(char, KeyAction)> = Vec::new();
    m.push(('a', KeyAction::ToggleAnswerCurrent));
    m.push(('A', KeyAction::ToggleAnswerGlobal));
    m.push(('c', KeyAction::ToggleCommentsCurrent));
    m.push(('C', KeyAction::ToggleCommentsGlobal));
    m.push(('1', KeyAction::ToggleSourceSim));
    m.push(('2', KeyAction::ToggleSourceReal));
    m.push(('3', KeyAction::ToggleSourceFamous));
    m.push(('n', KeyAction::MarkNew));
    m.push(('r', KeyAction::MarkReviewing));
    m.push(('m', KeyAction::MarkMastered));
    m.push(('z', KeyAction::GradeAgain));
    m.push(('x', KeyAction::GradeHard));
    m.push(('g', KeyAction::GradeGood));
    m.push(('v', KeyAction::VisualToggle));
    m.push(('S', KeyAction::RunScraper));
    m.push(('D', KeyAction::ToggleDueOnly));
    m.push(('R', KeyAction::Reload));
    m.push(('h', KeyAction::MoveLeft));
    m.push(('l', KeyAction::MoveRight));
    m.push(('j', KeyAction::MoveDownDetail));
    m.push(('k', KeyAction::MoveUpDetail));
    m.push(('y', KeyAction::YankToNote));
    m.push(('o', KeyAction::ToggleNotesFold));
    proof {
        assert(m@ =~= spec_default_keymap());
    }
    m
}

/// Binds `ch` to `a`, replacing any existing binding of the key.
fn upsert_key(m: &mut Vec<(char, KeyAction)>, ch: char, a: KeyAction)
    ensures
        final(m)@ == spec_upsert(old(m)@, ch, a),
{
    proof {
        lemma_index_of_key(old(m)@, ch);
        assert(m@.skip(0) =~= m@);
    }
    let mut i: usize = 0;
    let mut found: Option<usize> = None;
    while i < m.len() && found.is_none()
        invariant
            i <= m@.len(),
            m@ == old(m)@,
            match found {
                Some(f) => f == i && spec_index_of_key(m@, ch) == Some(f as int),
                None => spec_index_of_key(m@, ch) == (match spec_index_of_key(
                    m@.skip(i as int),
                    ch,
                ) {
                    Some(t) => Some(t + i),
                    None => None::<int>,
                }),
            },
        decreases m@.len() - i, (match found {
            Some(_) => 0int,
            None => 1int,
        }),
    {
        proof {
            assert(m@.skip(i as int)[0] == m@[i as int]);
            assert(m@.skip(i as int).drop_first() =~= m@.skip(i as int + 1));
        }
        if m[i].0 == ch {
            found = Some(i);
        } else {
            i = i + 1;
        }
    }
    match found {
        Some(f) => {
            let _ = m.remove(f);
            m.insert(f, (ch, a));
            proof {
                assert(old(m)@.remove(f as int).insert(f as int, (ch, a)) =~= old(m)@.update(
                    f as int,
                    (ch, a),
                ));
            }
        },
        None => {
            proof {
                assert(m@.skip(m@.len() as int) =~= Seq::<(char, KeyAction)>::empty());
            }
            m.push((ch, a));
        },
    }
}

/// Parses a table of (key, action name) entries into a binding list: only
/// single-character keys with known action names bind, a later entry for a
/// key replaces an earlier one, and an empty outcome falls back to the
/// built-in bindings.
pub fn parse_keymap(pairs: &Vec<(String, String)>) -> (out: Vec<(char, KeyAction)>)
    ensures
        ({
            let parsed = spec_parse_pairs(pairs@, pairs@.len() as int);
            out@ == if parsed.len() == 0 {
                spec_default_keymap()
            } else {
                parsed
            }
        }),
{
    let mut out: Vec<(char, KeyAction)> = Vec::new();
    let mut k: usize = 0;
    while k < pairs.len()
        invariant
            k <= pairs@.len(),
            out@ == spec_parse_pairs(pairs@, k as int),
        decreases pairs@.len() - k,
    {
        let key = &pairs[k].0;
        if key.as_str().unicode_len() == 1 {
            let ch = key.as_str().get_char(0);
            match action_from_str(pairs[k].1.as_str()) {
                Some(a) => {
                    upsert_key(&mut out, ch, a);
                },
                None => {},
            }
        }
        k = k + 1;
    }
    if out.len() == 0 {
        default_keymap()
    } else {
        out
    }
}

/// Looks a key up in a binding list.
pub fn keymap_lookup(m: &Vec<(char, KeyAction)>, ch: char) -> (r: Option<KeyAction>)
    ensures
        match spec_index_of_key(m@, ch) {
            Some(i) => r == Some(m@[i].1),
            None => r is None,
        },
{
    proof {
        assert(m@.skip(0) =~= m@);
    }
    let mut i: usize = 0;
    while i < m.len()
        invariant
            i <= m@.len(),
            spec_index_of_key(m@, ch) == (match spec_index_of_key(m@.skip(i as int), ch) {
                Some(t) => Some(t + i),
                None => None::<int>,
            }),
        decreases m@.len() - i,
    {
        proof {
            assert(m@.skip(i as int)[0] == m@[i as int]);
            assert(m@.skip(i as int).drop_first() =~= m@.skip(i as int + 1));
        }
        if m[i].0 == ch {
            return Some(m[i].1);
        }
        i = i + 1;
    }
    proof {
        assert(m@.skip(m@.len() as int) =~= Seq::<(char, KeyAction)>::empty());
    }
    None
}

} // verus!
