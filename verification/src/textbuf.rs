//! Plain text buffers: the small note editor (a character buffer with a
//! cursor), display-width line wrapping, and the plain-text renderings of a
//! question's options and schedule.

use vstd::prelude::*;
use crate::data::{OptionItem, Question};
use crate::strutil::{
    chars_of_str, dec_of_int, dec_of_nat, dec_string_i64, dec_string_u64, join_strings, join_with,
    string_of_chars,
};

verus! {

/// A minimal editing buffer for a note: its text, a character cursor, and
/// where the result goes when saved (an existing note, or a new note for a
/// question).
#[derive(Clone, Debug)]
pub struct Editor {
    pub buffer: String,
    pub saved: bool,
    pub cursor: usize,
    pub target_note_index: Option<usize>,
    pub new_note_qid: Option<i64>,
    pub new_note_excerpt: Option<String>,
}

/// The editor's cursor always sits between characters of its buffer.
pub open spec fn editor_wf(e: Editor) -> bool {
    e.cursor <= e.buffer@.len()
}

impl Editor {
    /// An editor opening a new note for question `qid`, prefilled with the
    /// yanked excerpt, cursor at the end.
    pub fn new_new(qid: i64, excerpt: String) -> (e: Editor)
        ensures
            e.buffer@ == excerpt@,
            !e.saved,
            e.cursor == excerpt@.len(),
            e.target_note_index is None,
            e.new_note_qid == Some(qid),
            e.new_note_excerpt matches Some(x) && x@ == excerpt@,
            editor_wf(e),
    {
        let cur = excerpt.as_str().unicode_len();
        Editor {
            buffer: excerpt.clone(),
            saved: false,
            cursor: cur,
            target_note_index: None,
            new_note_qid: Some(qid),
            new_note_excerpt: Some(excerpt),
        }
    }

    /// An editor over an existing note's content, cursor at the end.
    pub fn new_edit(content: String, idx: usize) -> (e: Editor)
        ensures
            e.buffer@ == content@,
            !e.saved,
            e.cursor == content@.len(),
            e.target_note_index == Some(idx),
            e.new_note_qid is None,
            e.new_note_excerpt is None,
            editor_wf(e),
    {
        let cur = content.as_str().unicode_len();
        Editor {
            buffer: content,
            saved: false,
            cursor: cur,
            target_note_index: Some(idx),
            new_note_qid: None,
            new_note_excerpt: None,
        }
    }
}

/// Inserts one character at the cursor and moves the cursor past it.
pub fn insert_char(ed: &mut Editor, ch: char)
    requires
        editor_wf(*old(ed)),
        old(ed).buffer@.len() < usize::MAX,
    ensures
        final(ed).buffer@ == old(ed).buffer@.insert(old(ed).cursor as int, ch),
        final(ed).cursor == old(ed).cursor + 1,
        final(ed).saved == old(ed).saved,
        final(ed).target_note_index == old(ed).target_note_index,
        final(ed).new_note_qid == old(ed).new_note_qid,
        final(ed).new_note_excerpt == old(ed).new_note_excerpt,
        editor_wf(*final(ed)),
{
    let mut v = chars_of_str(ed.buffer.as_str());
    let pos = if ed.cursor < v.len() {
        ed.cursor
    } else {
        v.len()
    };
    v.insert(pos, ch);
    ed.buffer = string_of_chars(&v);
    ed.cursor = ed.cursor + 1;
}

/// Removes the character before the cursor and moves the cursor back; at the
/// start of the buffer nothing changes.
pub fn backspace(ed: &mut Editor)
    requires
        editor_wf(*old(ed)),
    ensures
        old(ed).cursor == 0 ==> *final(ed) == *old(ed),
        old(ed).cursor > 0 ==> {
            &&& final(ed).buffer@ == old(ed).buffer@.remove(old(ed).cursor - 1)
            &&& final(ed).cursor == old(ed).cursor - 1
            &&& final(ed).saved == old(ed).saved
            &&& final(ed).target_note_index == old(ed).target_note_index
            &&& final(ed).new_note_qid == old(ed).new_note_qid
            &&& final(ed).new_note_excerpt == old(ed).new_note_excerpt
        },
        editor_wf(*final(ed)),
{
    if ed.cursor == 0 {
        return ;
    }
    let mut v = chars_of_str(ed.buffer.as_str());
    let pos = ed.cursor - 1;
    let _ = v.remove(pos);
    ed.buffer = string_of_chars(&v);
    ed.cursor = ed.cursor - 1;
}

/// What `unicode_width` assigns a character: its displayed width in columns,
/// a fixed function of the character alone; control characters count as 0.
pub uninterp spec fn char_width_of(c: char) -> int;

/// Relies on `unicode_width::UnicodeWidthChar::width`: the character's
/// displayed column width, at most 3 by its tables, with control characters
/// (for which it returns nothing) counted as 0.
#[verifier::external_body]
fn char_display_width(c: char) -> (w: usize)
    ensures
        w == char_width_of(c),
        w <= 3,
{
    unicode_width::UnicodeWidthChar::width(c).unwrap_or(0)
}

/// One wrapping step: the next character either extends the current chunk or,
/// when it would overflow a non-empty chunk, starts a new one. The state is
/// (finished chunks, current chunk, current chunk width).
pub open spec fn wrap_step(
    st: (Seq<Seq<char>>, Seq<char>, int),
    c: char,
    width: int,
) -> (Seq<Seq<char>>, Seq<char>, int) {
    let w = char_width_of(c);
    if st.2 + w > width && st.1.len() > 0 {
        (st.0.push(st.1), seq![c], w)
    } else {
        (st.0, st.1.push(c), st.2 + w)
    }
}

/// The wrapping state after a whole line.
pub open spec fn wrap_fold(cs: Seq<char>, width: int) -> (Seq<Seq<char>>, Seq<char>, int)
    decreases cs.len(),
{
    if cs.len() == 0 {
        (Seq::empty(), Seq::empty(), 0)
    } else {
        wrap_step(wrap_fold(cs.drop_last(), width), cs.last(), width)
    }
}

/// The display rows of one line wrapped at `width` columns: the finished
/// chunks plus the trailing one; an empty line still yields one empty row.
pub open spec fn wrap_line(cs: Seq<char>, width: int) -> Seq<Seq<char>> {
    let st = wrap_fold(cs, width);
    if st.1.len() > 0 {
        st.0.push(st.1)
    } else if st.0.len() == 0 {
        seq![Seq::<char>::empty()]
    } else {
        st.0
    }
}

/// The rows of all lines wrapped at `width`, in order.
pub open spec fn wrap_all(ls: Seq<Seq<char>>, width: int) -> Seq<Seq<char>>
    decreases ls.len(),
{
    if ls.len() == 0 {
        Seq::empty()
    } else {
        wrap_all(ls.drop_last(), width) + wrap_line(ls.last(), width)
    }
}

/// Wraps each line to the display width (at least one column), returning the
/// wrapped rows and, per input line, how many rows it produced.
pub fn wrap_flat_lines(lines: &Vec<String>, maxw: usize) -> (r: (Vec<String>, Vec<usize>))
    requires
        maxw < usize::MAX - 8,
    ensures
        ({
            let width = if maxw >= 1 {
                maxw as int
            } else {
                1
            };
            let ls = lines@.map_values(|s: String| s@);
            &&& r.0@.map_values(|s: String| s@) == wrap_all(ls, width)
            &&& r.1@.len() == lines@.len()
            &&& forall|i: int|
                0 <= i < lines@.len() ==> (#[trigger] r.1@[i]) as int == wrap_line(
                    ls[i],
                    width,
                ).len()
        }),
{
    let width: usize = if maxw >= 1 {
        maxw
    } else {
        1
    };
    let ghost ls = lines@.map_values(|s: String| s@);
    let mut wrapped: Vec<String> = Vec::new();
    let mut counts: Vec<usize> = Vec::new();
    let mut i: usize = 0;
    proof {
        assert(ls.take(0) =~= Seq::<Seq<char>>::empty());
    }
    while i < lines.len()
        invariant
            i <= lines@.len(),
            maxw < usize::MAX - 8,
            width == if maxw >= 1 {
                maxw as int
            } else {
                1
            },
            1 <= width,
            ls == lines@.map_values(|s: String| s@),
            wrapped@.map_values(|s: String| s@) == wrap_all(ls.take(i as int), width as int),
            counts@.len() == i as nat,
            forall|t: int|
                0 <= t < i ==> (#[trigger] counts@[t]) as int == wrap_line(
                    ls[t],
                    width as int,
                ).len(),
        decreases lines@.len() - i,
    {
        let cs = chars_of_str(lines[i].as_str());
        let ghost line = ls[i as int];
        proof {
            assert(line == cs@);
        }
        let mut rows: usize = 0;
        let mut chunk: Vec<char> = Vec::new();
        let mut cw: usize = 0;
        let mut j: usize = 0;
        let ghost wrapped_before = wrapped@;
        proof {
            assert(line.take(0) =~= Seq::<char>::empty());
        }
        while j < cs.len()
            invariant
                j <= cs@.len(),
                cs@ == line,
                1 <= width,
                maxw < usize::MAX - 8,
                width <= maxw || width == 1,
                rows + chunk@.len() <= j,
                cw <= width + 3,
                chunk@.len() == 0 ==> cw == 0,
                wrap_fold(line.take(j as int), width as int) == (
                    wrapped@.map_values(|s: String| s@).skip(wrapped_before.len() as int),
                    chunk@,
                    cw as int,
                ),
                wrapped@.map_values(|s: String| s@).len() >= wrapped_before.len(),
                wrapped@.map_values(|s: String| s@).take(wrapped_before.len() as int)
                    == wrapped_before.map_values(|s: String| s@),
                rows as int == wrapped@.len() - wrapped_before.len(),
            decreases cs@.len() - j,
        {
            let c = cs[j];
            let w = char_display_width(c);
            let ghost wv = wrapped@.map_values(|s: String| s@);
            proof {
                assert(line.take(j as int + 1).drop_last() =~= line.take(j as int));
                assert(line.take(j as int + 1).last() == line[j as int]);
            }
            if cw + w > width && chunk.len() > 0 {
                let s = string_of_chars(&chunk);
                wrapped.push(s);
                rows = rows + 1;
                chunk = Vec::new();
                chunk.push(c);
                cw = w;
                proof {
                    assert(wrapped@.map_values(|s: String| s@) =~= wv.push(
                        wrap_fold(line.take(j as int), width as int).1,
                    ));
                    assert(wrapped@.map_values(|s: String| s@).skip(wrapped_before.len() as int)
                        =~= wv.skip(wrapped_before.len() as int).push(
                        wrap_fold(line.take(j as int), width as int).1,
                    ));
                    assert(chunk@ =~= seq![c]);
                    assert(wrapped@.map_values(|s: String| s@).take(wrapped_before.len() as int)
                        =~= wv.take(wrapped_before.len() as int));
                }
            } else {
                cw = cw + w;
                chunk.push(c);
            }
            j = j + 1;
        }
        proof {
            assert(line.take(line.len() as int) =~= line);
        }
        let ghost st = wrap_fold(line, width as int);
        proof {
            assert(st.0 == wrapped@.map_values(|s2: String| s2@).skip(wrapped_before.len() as int));
            assert(st.1 == chunk@);
            assert(st.0.len() == rows as int) by {
                assert(wrapped@.map_values(|s2: String| s2@).len() == wrapped@.len());
            }
        }
        if chunk.len() > 0 {
            let s = string_of_chars(&chunk);
            wrapped.push(s);
            rows = rows + 1;
            proof {
                assert(wrapped@.map_values(|s2: String| s2@) =~= wrapped_before.map_values(
                    |s2: String| s2@,
                ) + st.0.push(st.1));
                assert(wrap_line(line, width as int) == st.0.push(st.1));
            }
        } else if rows == 0 {
            proof {
                assert(st.0.len() == 0);
                assert(wrap_line(line, width as int) == seq![Seq::<char>::empty()]);
            }
            let empty_chunk: Vec<char> = Vec::new();
            let s = string_of_chars(&empty_chunk);
            wrapped.push(s);
            rows = 1;
            proof {
                assert(wrapped@.map_values(|s2: String| s2@) =~= wrapped_before.map_values(
                    |s2: String| s2@,
                ) + seq![Seq::<char>::empty()]);
            }
        } else {
            proof {
                assert(st.1.len() == 0);
                assert(st.0.len() > 0);
                assert(wrap_line(line, width as int) == st.0);
                assert(wrapped@.map_values(|s2: String| s2@) =~= wrapped_before.map_values(
                    |s2: String| s2@,
                ) + st.0);
            }
        }
        counts.push(rows);
        proof {
            assert(ls.take(i as int + 1).drop_last() =~= ls.take(i as int));
            assert(ls.take(i as int + 1).last() == ls[i as int]);
            assert(wrapped@.map_values(|s2: String| s2@) =~= wrap_all(
                ls.take(i as int + 1),
                width as int,
            ));
        }
        i = i + 1;
    }
    proof {
        assert(ls.take(lines@.len() as int) =~= ls);
    }
    (wrapped, counts)
}

/// One option line: its label, a separating dot, and its content.
pub open spec fn spec_option_line(o: OptionItem) -> Seq<char> {
    o.label@ + ". "@ + o.content@
}

/// The options of a question rendered one per line, or nothing when it has
/// none.
pub fn format_question_options(q: &Question) -> (r: String)
    ensures
        q.options@.len() == 0 ==> r@ == Seq::<char>::empty(),
        q.options@.len() > 0 ==> r@ == join_with(
            q.options@.map_values(|o: OptionItem| spec_option_line(o)),
            "\n"@,
        ),
{
    if q.options.len() == 0 {
        return String::new();
    }
    let mut parts: Vec<String> = Vec::new();
    let mut i: usize = 0;
    while i < q.options.len()
        invariant
            i <= q.options@.len(),
            parts@.len() == i as nat,
            forall|t: int|
                0 <= t < i ==> (#[trigger] parts@[t])@ == spec_option_line(q.options@[t]),
        decreases q.options@.len() - i,
    {
        let mut line = q.options[i].label.clone();
        line.append(". ");
        line.append(q.options[i].content.as_str());
        parts.push(line);
        i = i + 1;
    }
    let r = join_strings(&parts, "\n");
    proof {
        assert(parts.deep_view() =~= q.options@.map_values(|o: OptionItem| spec_option_line(o)));
    }
    r
}

/// The one-line schedule summary of a question: stage, priority and due
/// time, or placeholders when it was never scheduled.
pub fn format_question_schedule(q: &Question) -> (r: String)
    ensures
        ({
            match q.exam {
                Some(e) => r@ == "stage:"@ + dec_of_nat(e.stage as nat) + " priority:"@ + dec_of_nat(
                    e.priority as nat,
                ) + " due:"@ + (match e.due {
                    Some(d) => dec_of_int(d as int),
                    None => "-"@,
                }),
                None => r@ == "stage:? priority:? due:?"@,
            }
        }),
{
    match &q.exam {
        Some(e) => {
            let mut r = String::from_str("stage:");
            let sd = dec_string_u64(e.stage as u64);
            r.append(sd.as_str());
            r.append(" priority:");
            let pd = dec_string_u64(e.priority as u64);
            r.append(pd.as_str());
            r.append(" due:");
            match e.due {
                Some(d) => {
                    let dd = dec_string_i64(d);
                    r.append(dd.as_str());
                },
                None => {
                    r.append("-");
                },
            }
            r
        },
        None => String::from_str("stage:? priority:? due:?"),
    }
}

} // verus!
