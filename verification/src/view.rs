//! Derived view state: the question search filter, the notes panel rows
//! (search mode or hierarchy order) with selection preservation, and the
//! status tallies shown in the header.

use vstd::prelude::*;
use crate::data::{row_valid, spec_question_of, ErrorData, Question, RowRef};
use crate::notes::{build_note_order, note_matches_query, spec_note_haystack, spec_note_order, Note};
use crate::strutil::{
    chars_of_str, contains_chars, contains_seq, join_strings, join_with, lower_of, lowercase,
    str_eq,
};

verus! {

/// How much of the notes forest is expanded.
#[derive(Clone, Copy, Debug, PartialEq, Eq, Structural)]
pub enum NotesFoldMode {
    Full,
    CurrentParent,
}

/// The comments part of a question's search text: each comment followed by a
/// line feed.
pub open spec fn comments_block(cs: Seq<Seq<char>>) -> Seq<char>
    decreases cs.len(),
{
    if cs.len() == 0 {
        Seq::empty()
    } else {
        comments_block(cs.drop_last()) + cs.last() + seq!['\n']
    }
}

/// The text a question is searched in: content, analysis, the answers joined
/// by spaces, and the comments.
pub open spec fn spec_question_haystack(q: Question) -> Seq<char> {
    q.content@ + seq!['\n'] + q.analysis@ + seq!['\n'] + join_with(
        q.answer@.map_values(|s: String| s@),
        " "@,
    ) + seq!['\n'] + comments_block(q.comments@.map_values(|s: String| s@))
}

/// Whether a question matches a search query: the query must occur in the
/// lowercased haystack. The query is expected already lowercased.
pub fn question_matches(q: &Question, query: &str) -> (r: bool)
    ensures
        r == contains_seq(lower_of(spec_question_haystack(*q)), query@),
{
    let mut hay = String::new();
    hay.append(q.content.as_str());
    hay.append("\n");
    hay.append(q.analysis.as_str());
    hay.append("\n");
    let joined = join_strings(&q.answer, " ");
    hay.append(joined.as_str());
    hay.append("\n");
    proof {
        reveal_strlit("\n");
        reveal_strlit(" ");
        assert(q.answer.deep_view() =~= q.answer@.map_values(|s: String| s@));
    }
    let ghost head = hay@;
    let mut i: usize = 0;
    proof {
        assert(comments_block(q.comments@.map_values(|s: String| s@).take(0)) =~= Seq::<
            char,
        >::empty());
        assert(hay@ =~= head + comments_block(q.comments@.map_values(|s: String| s@).take(0)));
    }
    while i < q.comments.len()
        invariant
            i <= q.comments@.len(),
            hay@ == head + comments_block(q.comments@.map_values(|s: String| s@).take(i as int)),
        decreases q.comments@.len() - i,
    {
        hay.append(q.comments[i].as_str());
        hay.append("\n");
        proof {
            reveal_strlit("\n");
            let cs = q.comments@.map_values(|s: String| s@);
            assert(cs.take(i as int + 1).drop_last() =~= cs.take(i as int));
            assert(cs.take(i as int + 1).last() == cs[i as int]);
            assert(hay@ =~= head + comments_block(cs.take(i as int + 1)));
        }
        i = i + 1;
    }
    proof {
        let cs = q.comments@.map_values(|s: String| s@);
        assert(cs.take(cs.len() as int) =~= cs);
        assert(hay@ =~= spec_question_haystack(*q));
    }
    let low = lowercase(hay.as_str());
    let hv = chars_of_str(low.as_str());
    let qv = chars_of_str(query);
    contains_chars(&hv, &qv)
}

/// The visible question rows: every row position, or, while a non-empty
/// search is active, only the positions whose question matches the
/// lowercased query.
pub open spec fn spec_filter_indices(
    data: ErrorData,
    rows: Seq<RowRef>,
    active: bool,
    query: Option<Seq<char>>,
) -> Seq<usize> {
    let all = crate::notes::index_seq(rows.len());
    let searching = active && (match query {
        Some(s) => lower_of(s).len() > 0,
        None => false,
    });
    if searching {
        let ql = lower_of(query->Some_0);
        all.filter(
            |i: usize|
                contains_seq(lower_of(spec_question_haystack(spec_question_of(data, rows[i as int]))), ql),
        )
    } else {
        all
    }
}

/// Recomputes the question filter, as `spec_filter_indices` describes.
pub fn filter_question_indices(
    data: &ErrorData,
    rows: &Vec<RowRef>,
    active: bool,
    query: Option<&String>,
) -> (out: Vec<usize>)
    requires
        forall|i: int| 0 <= i < rows@.len() ==> row_valid(*data, #[trigger] rows@[i]),
    ensures
        out@ == spec_filter_indices(
            *data,
            rows@,
            active,
            match query {
                Some(s) => Some(s@),
                None => None,
            },
        ),
        forall|t: int| 0 <= t < out@.len() ==> (#[trigger] out@[t]) < rows@.len(),
{
    let ghost all = crate::notes::index_seq(rows@.len());
    let n = rows.len();
    let mut searching = false;
    let mut ql: String = String::new();
    match query {
        Some(s) => {
            if active {
                ql = lowercase(s.as_str());
                if ql.as_str().unicode_len() > 0 {
                    searching = true;
                }
            }
        },
        None => {},
    }
    if !searching {
        let mut out: Vec<usize> = Vec::new();
        let mut i: usize = 0;
        while i < n
            invariant
                i <= n,
                n == rows@.len(),
                all == crate::notes::index_seq(rows@.len()),
                out@ == all.take(i as int),
            decreases n - i,
        {
            out.push(i);
            proof {
                assert(all.take(i as int).push(all[i as int]) =~= all.take(i as int + 1));
            }
            i = i + 1;
        }
        proof {
            assert(all.take(n as int) =~= all);
        }
        return out;
    }
    let ghost qlow = lower_of(match query {
        Some(s) => s@,
        None => Seq::<char>::empty(),
    });
    let ghost pred = |i: usize|
        contains_seq(lower_of(spec_question_haystack(spec_question_of(*data, rows@[i as int]))), qlow);
    let mut out: Vec<usize> = Vec::new();
    let mut i: usize = 0;
    proof {
        reveal(Seq::filter);
        assert(all.take(0) =~= Seq::<usize>::empty());
    }
    while i < n
        invariant
            i <= n,
            n == rows@.len(),
            forall|t: int| 0 <= t < rows@.len() ==> row_valid(*data, #[trigger] rows@[t]),
            all == crate::notes::index_seq(rows@.len()),
            ql@ == qlow,
            pred == (|i2: usize|
                contains_seq(
                    lower_of(spec_question_haystack(spec_question_of(*data, rows@[i2 as int]))),
                    qlow,
                )),
            out@ == all.take(i as int).filter(pred),
            forall|t: int| 0 <= t < out@.len() ==> (#[trigger] out@[t]) < rows@.len(),
        decreases n - i,
    {
        let q = crate::data::get_question(data, &rows[i]);
        let m = question_matches(q, ql.as_str());
        proof {
            reveal(Seq::filter);
            assert(all.take(i as int + 1).drop_last() =~= all.take(i as int));
            assert(all.take(i as int + 1).last() == all[i as int]);
            assert(all[i as int] == i as usize);
            assert(m == pred(i as usize));
        }
        if m {
            out.push(i);
        }
        i = i + 1;
    }
    proof {
        assert(all.take(n as int) =~= all);
    }
    out
}

/// The first position of `x` in a row list, if present.
pub open spec fn spec_position_of(s: Seq<usize>, x: usize) -> Option<int>
    decreases s.len(),
{
    if s.len() == 0 {
        None
    } else if s[0] == x {
        Some(0)
    } else {
        match spec_position_of(s.drop_first(), x) {
            Some(i) => Some(i + 1),
            None => None,
        }
    }
}

fn position_of(s: &Vec<usize>, x: usize) -> (r: Option<usize>)
    ensures
        match r {
            Some(p) => p < s@.len() && spec_position_of(s@, x) == Some(p as int),
            None => spec_position_of(s@, x) is None,
        },
{
    proof {
        assert(s@.skip(0) =~= s@);
    }
    let mut i: usize = 0;
    while i < s.len()
        invariant
            i <= s@.len(),
            spec_position_of(s@, x) == (match spec_position_of(s@.skip(i as int), x) {
                Some(t) => Some(t + i),
                None => None::<int>,
            }),
        decreases s@.len() - i,
    {
        proof {
            assert(s@.skip(i as int)[0] == s@[i as int]);
            assert(s@.skip(i as int).drop_first() =~= s@.skip(i as int + 1));
        }
        if s[i] == x {
            return Some(i);
        }
        i = i + 1;
    }
    proof {
        assert(s@.skip(s@.len() as int) =~= Seq::<usize>::empty());
    }
    None
}

/// The matching notes in storage order, each at depth 0: search mode
/// bypasses the hierarchy.
fn search_note_indices(notes: &Vec<Note>, s: &String) -> (r: (Vec<usize>, Vec<usize>))
    ensures
        r.0@ == crate::notes::index_seq(notes@.len()).filter(
            |j: usize| contains_seq(lower_of(spec_note_haystack(notes@[j as int])), lower_of(s@)),
        ),
        r.1@ == Seq::new(r.0@.len(), |t: int| 0usize),
{
    let n = notes.len();
    let ql = lowercase(s.as_str());
    let ghost all = crate::notes::index_seq(notes@.len());
    let ghost pred = |j: usize|
        contains_seq(lower_of(spec_note_haystack(notes@[j as int])), lower_of(s@));
    let mut indices: Vec<usize> = Vec::new();
    let mut i: usize = 0;
    proof {
        reveal(Seq::filter);
        assert(all.take(0) =~= Seq::<usize>::empty());
    }
    while i < n
        invariant
            i <= n,
            n == notes@.len(),
            all == crate::notes::index_seq(notes@.len()),
            ql@ == lower_of(s@),
            pred == (|j: usize|
                contains_seq(lower_of(spec_note_haystack(notes@[j as int])), lower_of(s@))),
            indices@ == all.take(i as int).filter(pred),
        decreases n - i,
    {
        let m = note_matches_query(&notes[i], ql.as_str());
        proof {
            reveal(Seq::filter);
            assert(all.take(i as int + 1).drop_last() =~= all.take(i as int));
            assert(all.take(i as int + 1).last() == all[i as int]);
            assert(all[i as int] == i as usize);
            assert(m == pred(i as usize));
        }
        if m {
            indices.push(i);
        }
        i = i + 1;
    }
    proof {
        assert(all.take(n as int) =~= all);
    }
    let mut depths: Vec<usize> = Vec::new();
    let mut t: usize = 0;
    while t < indices.len()
        invariant
            t <= indices@.len(),
            depths@ == Seq::new(t as nat, |u: int| 0usize),
        decreases indices@.len() - t,
    {
        depths.push(0);
        proof {
            assert(Seq::new(t as nat, |u: int| 0usize).push(0usize) =~= Seq::new(
                t as nat + 1,
                |u: int| 0usize,
            ));
        }
        t = t + 1;
    }
    proof {
        assert(depths@ =~= Seq::new(indices@.len(), |u: int| 0usize));
    }
    (indices, depths)
}

/// The anchor id the focused fold mode derives from the selected note: its
/// parent id, or its own id at a root.
pub open spec fn spec_fold_anchor(
    notes: Seq<Note>,
    fold: NotesFoldMode,
    prev: Option<usize>,
) -> Option<Seq<char>> {
    match (fold, prev) {
        (NotesFoldMode::CurrentParent, Some(p)) => Some(
            match notes[p as int].parent_id {
                Some(pid) => pid@,
                None => notes[p as int].id@,
            },
        ),
        _ => None,
    }
}

/// The hierarchy order under the fold mode, anchored at the selected note's
/// parent chain in the focused mode.
fn fold_note_order(notes: &Vec<Note>, fold: NotesFoldMode, prev: Option<usize>) -> (r: (
    Vec<usize>,
    Vec<usize>,
))
    requires
        notes@.len() < usize::MAX,
        prev matches Some(p) ==> p < notes@.len(),
    ensures
        ({
            let (o, d) = spec_note_order(notes@, spec_fold_anchor(notes@, fold, prev));
            r.0@ == o && r.1@ == d
        }),
{
    let anchor_string: Option<&String> = match (fold, &prev) {
        (NotesFoldMode::CurrentParent, Some(p)) => {
            match &notes[*p].parent_id {
                Some(pid) => Some(pid),
                None => Some(&notes[*p].id),
            }
        },
        _ => None,
    };
    match anchor_string {
        Some(a) => build_note_order(notes, Some(a.as_str())),
        None => build_note_order(notes, None),
    }
}

/// The notes panel rows and selection after a change: while a non-empty
/// search query stands, the matching notes in storage order at depth 0;
/// otherwise the hierarchy order, anchored (in the focused fold mode) at the
/// previously selected note's parent, or at the note itself when it has no
/// parent. The previously selected note stays selected when still visible;
/// otherwise the first row is selected; an empty view selects nothing.
pub fn note_view(
    notes: &Vec<Note>,
    fold: NotesFoldMode,
    query: Option<&String>,
    prev_selected: Option<usize>,
) -> (r: (Vec<usize>, Vec<usize>, Option<usize>))
    requires
        notes@.len() < usize::MAX,
        prev_selected matches Some(p) ==> p < notes@.len(),
    ensures
        ({
            let (indices, depths, sel) = r;
            let searching = match query {
                Some(s) => s@.len() > 0,
                None => false,
            };
            &&& (if searching {
                &&& indices@ == crate::notes::index_seq(notes@.len()).filter(
                    |j: usize|
                        contains_seq(
                            lower_of(spec_note_haystack(notes@[j as int])),
                            lower_of(query->Some_0@),
                        ),
                )
                &&& depths@ == Seq::new(indices@.len(), |t: int| 0usize)
            } else {
                let (o, d) = spec_note_order(
                    notes@,
                    spec_fold_anchor(notes@, fold, prev_selected),
                );
                indices@ == o && depths@ == d
            })
            &&& (match sel {
                Some(pos) => indices@.len() > 0 && pos < indices@.len() && (match prev_selected {
                    Some(p) => (match spec_position_of(indices@, p) {
                        Some(t) => pos == t,
                        None => pos == 0,
                    }),
                    None => pos == 0,
                }),
                None => indices@.len() == 0,
            })
        }),
{
    let pair: (Vec<usize>, Vec<usize>) = match query {
        Some(s) => {
            if s.as_str().unicode_len() > 0 {
                search_note_indices(notes, s)
            } else {
                fold_note_order(notes, fold, prev_selected)
            }
        },
        None => fold_note_order(notes, fold, prev_selected),
    };
    let indices = pair.0;
    let depths = pair.1;
    let sel: Option<usize> = if indices.len() == 0 {
        None
    } else {
        match prev_selected {
            Some(p) => {
                match position_of(&indices, p) {
                    Some(pos) => Some(pos),
                    None => Some(0),
                }
            },
            None => Some(0),
        }
    };
    (indices, depths, sel)
}

/// Where a relative move lands a selection: clamped to the visible rows, an
/// empty view selecting nothing.
pub open spec fn spec_move_selection(current: Option<usize>, delta: int, total: int) -> Option<
    int,
> {
    if total == 0 {
        None
    } else {
        let base = match current {
            Some(c) => c as int,
            None => -1,
        };
        let idx = base + delta;
        Some(
            if idx < 0 {
                0
            } else if idx >= total {
                total - 1
            } else {
                idx
            },
        )
    }
}

/// Moves a selection by `delta` rows, clamped to the list.
pub fn move_note_selection(current: Option<usize>, delta: isize, total: usize) -> (r: Option<usize>)
    ensures
        match r {
            Some(p) => p < total && spec_move_selection(current, delta as int, total as int)
                == Some(p as int),
            None => total == 0,
        },
{
    if total == 0 {
        return None;
    }
    let base: i128 = match current {
        Some(c) => c as i128,
        None => -1,
    };
    let idx: i128 = base + delta as i128;
    if idx < 0 {
        Some(0)
    } else if idx >= total as i128 {
        Some(total - 1)
    } else {
        Some(idx as usize)
    }
}

/// The (new, reviewing, mastered) tallies over the given rows; a status that
/// is none of the three counts as new.
pub open spec fn spec_status_counts(data: ErrorData, rows: Seq<RowRef>) -> (int, int, int)
    decreases rows.len(),
{
    if rows.len() == 0 {
        (0, 0, 0)
    } else {
        let r = spec_status_counts(data, rows.drop_last());
        let st = spec_question_of(data, rows.last()).user_status@;
        if st == "reviewing"@ {
            (r.0, r.1 + 1, r.2)
        } else if st == "mastered"@ {
            (r.0, r.1, r.2 + 1)
        } else {
            (r.0 + 1, r.1, r.2)
        }
    }
}

/// Counts the rows by mastery status.
pub fn status_counts(data: &ErrorData, rows: &Vec<RowRef>) -> (r: (usize, usize, usize))
    requires
        forall|i: int| 0 <= i < rows@.len() ==> row_valid(*data, #[trigger] rows@[i]),
    ensures
        (r.0 as int, r.1 as int, r.2 as int) == spec_status_counts(*data, rows@),
{
    let mut n_new: usize = 0;
    let mut n_rev: usize = 0;
    let mut n_mas: usize = 0;
    let mut k: usize = 0;
    while k < rows.len()
        invariant
            k <= rows@.len(),
            forall|i: int| 0 <= i < rows@.len() ==> row_valid(*data, #[trigger] rows@[i]),
            n_new + n_rev + n_mas == k,
            (n_new as int, n_rev as int, n_mas as int) == spec_status_counts(
                *data,
                rows@.take(k as int),
            ),
        decreases rows@.len() - k,
    {
        let q = crate::data::get_question(data, &rows[k]);
        proof {
            assert(rows@.take(k as int + 1).drop_last() =~= rows@.take(k as int));
            assert(rows@.take(k as int + 1).last() == rows@[k as int]);
        }
        if str_eq(q.user_status.as_str(), "reviewing") {
            n_rev = n_rev + 1;
        } else if str_eq(q.user_status.as_str(), "mastered") {
            n_mas = n_mas + 1;
        } else {
            n_new = n_new + 1;
        }
        k = k + 1;
    }
    proof {
        assert(rows@.take(rows@.len() as int) =~= rows@);
    }
    (n_new, n_rev, n_mas)
}

} // verus!
