//! The notes forest: flat notes with parent references, derived titles,
//! case-insensitive search, and a deterministic, cycle-safe display order
//! with full and anchored fold modes.

use vstd::prelude::*;
use crate::schedule::ExamState;
use crate::strutil::{
    chars_of_str, contains_chars, contains_seq, dec_chars_u64, dec_of_int, dec_of_nat,
    first_line_of, first_line_chars, first_nonblank_line_of, first_nonblank_trimmed, lex_lt,
    lex_lt_chars, lower_of, lowercase, string_of_chars, trim_chars, trim_of,
};

verus! {

/// One note: a free-text fragment linked to a question, optionally parented
/// to another note by id. Creation and update stamps are kept as the
/// timestamp strings the store holds; they order correctly as text.
#[derive(Clone, Debug)]
pub struct Note {
    pub id: String,
    pub qid: i64,
    pub title: String,
    pub parent_id: Option<String>,
    pub excerpt: String,
    pub content: String,
    pub tags: Vec<String>,
    pub created_at: String,
    pub updated_at: String,
    pub exam: Option<ExamState>,
    /// Per-blank schedules, keyed by blank id; keys are unique.
    pub exam_by_cloze: Vec<(String, ExamState)>,
}

/// The title derived from free text: its first non-blank line, trimmed, or a
/// fallback naming the linked question.
pub open spec fn spec_derived_title(source: Seq<char>, qid: int) -> Seq<char> {
    match first_nonblank_line_of(source) {
        Some(t) => t,
        None => "Note "@ + dec_of_int(qid),
    }
}

/// Derives a note title from its excerpt text, falling back to the linked
/// question id.
pub fn derive_note_title(source: &str, qid: i64) -> (r: String)
    ensures
        r@ == spec_derived_title(source@, qid as int),
{
    let v = chars_of_str(source);
    match first_nonblank_trimmed(&v) {
        Some(t) => string_of_chars(&t),
        None => {
            let mut s = String::from_str("Note ");
            if qid >= 0 {
                let digits = dec_chars_u64(qid as u64);
                let ds = string_of_chars(&digits);
                s.append(ds.as_str());
            } else {
                let mag: u64 = (-(qid as i128)) as u64;
                assert(mag as int == -(qid as int));
                let digits = dec_chars_u64(mag);
                let ds = string_of_chars(&digits);
                s.append("-");
                s.append(ds.as_str());
                proof {
                    assert(("Note "@ + "-"@) + dec_of_nat(mag as nat) =~= "Note "@ + (seq!['-']
                        + dec_of_nat(mag as nat))) by {
                        reveal_strlit("-");
                    }
                }
            }
            s
        },
    }
}

/// The title a note is shown under: its own title when not blank, else the
/// title derived from its excerpt.
pub open spec fn spec_display_title(n: Note) -> Seq<char> {
    if trim_of(n.title@).len() == 0 {
        spec_derived_title(n.excerpt@, n.qid as int)
    } else {
        trim_of(n.title@)
    }
}

/// The display title of a note.
pub fn note_display_title(note: &Note) -> (r: String)
    ensures
        r@ == spec_display_title(*note),
{
    let tv = chars_of_str(note.title.as_str());
    let trimmed = trim_chars(&tv);
    if trimmed.len() == 0 {
        derive_note_title(note.excerpt.as_str(), note.qid)
    } else {
        string_of_chars(&trimmed)
    }
}

/// The first line of a note's excerpt, trimmed.
pub open spec fn spec_excerpt_head(n: Note) -> Seq<char> {
    trim_of(first_line_of(n.excerpt@))
}

/// The excerpt line shown beside a note's title.
pub fn note_excerpt_head(note: &Note) -> (r: String)
    ensures
        r@ == spec_excerpt_head(*note),
{
    let v = chars_of_str(note.excerpt.as_str());
    let line = first_line_chars(&v);
    let trimmed = trim_chars(&line);
    string_of_chars(&trimmed)
}

/// The text a note is searched in: display title, excerpt and content,
/// joined by line feeds.
pub open spec fn spec_note_haystack(n: Note) -> Seq<char> {
    spec_display_title(n) + seq!['\n'] + n.excerpt@ + seq!['\n'] + n.content@
}

/// Whether a note matches a search query: the query must occur in the
/// lowercased haystack. The query is expected already lowercased.
pub fn note_matches_query(note: &Note, query: &str) -> (r: bool)
    ensures
        r == contains_seq(lower_of(spec_note_haystack(*note)), query@),
{
    let mut hay = note_display_title(note);
    hay.append("\n");
    hay.append(note.excerpt.as_str());
    hay.append("\n");
    hay.append(note.content.as_str());
    proof {
        reveal_strlit("\n");
        assert("\n"@ =~= seq!['\n']);
        assert(hay@ =~= spec_note_haystack(*note));
    }
    let low = lowercase(hay.as_str());
    let hv = chars_of_str(low.as_str());
    let qv = chars_of_str(query);
    contains_chars(&hv, &qv)
}

/// Grades a note's whole-note schedule (created lazily on first grading, no
/// deadline applies) and refreshes its update stamp; nothing else changes.
pub fn grade_note(note: &mut Note, grade: crate::schedule::Grade, now: i64, updated_at: String)
    requires
        -crate::schedule::TS_BOUND <= now <= crate::schedule::TS_BOUND,
    ensures
        ({
            let e = final(note).exam;
            e matches Some(x) && crate::flash::graded_rel(old(note).exam, x, grade, now, None)
        }),
        final(note).updated_at == updated_at,
        final(note).id == old(note).id,
        final(note).qid == old(note).qid,
        final(note).title == old(note).title,
        final(note).parent_id == old(note).parent_id,
        final(note).excerpt == old(note).excerpt,
        final(note).content == old(note).content,
        final(note).tags == old(note).tags,
        final(note).created_at == old(note).created_at,
        final(note).exam_by_cloze == old(note).exam_by_cloze,
{
    let mut ex: ExamState = match note.exam.take() {
        Some(e) => e,
        None => crate::schedule::default_exam_state(),
    };
    crate::schedule::apply_exam_grade(&mut ex, grade, now, None);
    note.exam = Some(ex);
    note.updated_at = updated_at;
}

/// Builds a fresh note for a question: its id names the question and the
/// creation instant, its title derives from the excerpt, and it starts as an
/// unscheduled root.
pub fn new_note(
    qid: i64,
    excerpt: String,
    content: String,
    created_at: String,
    now_millis: i64,
) -> (n: Note)
    ensures
        n.id@ == "n-"@ + dec_of_int(qid as int) + "-"@ + dec_of_int(now_millis as int),
        n.qid == qid,
        n.title@ == spec_derived_title(excerpt@, qid as int),
        n.parent_id is None,
        n.excerpt@ == excerpt@,
        n.content == content,
        n.tags@ =~= Seq::<String>::empty(),
        n.created_at@ == created_at@,
        n.updated_at@ == created_at@,
        n.exam is None,
        n.exam_by_cloze@ =~= Seq::<(String, ExamState)>::empty(),
{
    let mut id = String::from_str("n-");
    let qd = crate::strutil::dec_string_i64(qid);
    id.append(qd.as_str());
    id.append("-");
    let md = crate::strutil::dec_string_i64(now_millis);
    id.append(md.as_str());
    proof {
        reveal_strlit("-");
        assert(("n-"@ + dec_of_int(qid as int) + "-"@) + dec_of_int(now_millis as int) =~= "n-"@
            + dec_of_int(qid as int) + "-"@ + dec_of_int(now_millis as int));
    }
    let title = derive_note_title(excerpt.as_str(), qid);
    let updated = created_at.clone();
    Note {
        id,
        qid,
        title,
        parent_id: None,
        excerpt,
        content,
        tags: Vec::new(),
        created_at,
        updated_at: updated,
        exam: None,
        exam_by_cloze: Vec::new(),
    }
}

/// The sibling-ordering key of each note: its lowercased display title, then
/// its creation stamp.
pub open spec fn spec_note_keys(notes: Seq<Note>) -> Seq<(Seq<char>, Seq<char>)> {
    Seq::new(notes.len(), |i: int| (lower_of(spec_display_title(notes[i])), notes[i].created_at@))
}

/// Strictly-before among siblings: by lowercased title, ties by creation
/// stamp, further ties keeping source order.
pub open spec fn key_lt(keys: Seq<(Seq<char>, Seq<char>)>, a: int, b: int) -> bool {
    lex_lt(keys[a].0, keys[b].0) || (keys[a].0 == keys[b].0 && lex_lt(keys[a].1, keys[b].1))
}

/// Where a stable insertion by key puts `x`.
pub open spec fn key_insert(keys: Seq<(Seq<char>, Seq<char>)>, s: Seq<usize>, x: usize) -> Seq<
    usize,
>
    decreases s.len(),
{
    if s.len() == 0 {
        seq![x]
    } else if key_lt(keys, x as int, s.last() as int) {
        key_insert(keys, s.drop_last(), x).push(s.last())
    } else {
        s.push(x)
    }
}

/// Stable insertion sort of note indices by key.
pub open spec fn sort_by_key(keys: Seq<(Seq<char>, Seq<char>)>, s: Seq<usize>) -> Seq<usize>
    decreases s.len(),
{
    if s.len() == 0 {
        s
    } else {
        key_insert(keys, sort_by_key(keys, s.drop_last()), s.last())
    }
}

proof fn lemma_key_insert_at(keys: Seq<(Seq<char>, Seq<char>)>, s: Seq<usize>, x: usize, j: int)
    requires
        0 <= j <= s.len(),
        forall|i: int| j <= i < s.len() ==> key_lt(keys, x as int, #[trigger] s[i] as int),
        j > 0 ==> !key_lt(keys, x as int, s[j - 1] as int),
    ensures
        key_insert(keys, s, x) == s.subrange(0, j) + seq![x] + s.subrange(j, s.len() as int),
    decreases s.len(),
{
    if s.len() == 0 {
        assert(key_insert(keys, s, x) =~= s.subrange(0, j) + seq![x] + s.subrange(
            j,
            s.len() as int,
        ));
    } else if j == s.len() {
        assert(!key_lt(keys, x as int, s[j - 1] as int));
        assert(s[s.len() - 1] == s.last());
        assert(key_insert(keys, s, x) == s.push(x));
        assert(key_insert(keys, s, x) =~= s.subrange(0, j) + seq![x] + s.subrange(
            j,
            s.len() as int,
        ));
    } else {
        assert(key_lt(keys, x as int, s.last() as int)) by {
            assert(s[s.len() - 1] == s.last());
        }
        let d = s.drop_last();
        assert(forall|i: int| j <= i < d.len() ==> key_lt(keys, x as int, #[trigger] d[i] as int))
            by {
            assert(forall|i: int| 0 <= i < d.len() ==> d[i] == s[i]);
        }
        if j > 0 {
            assert(d[j - 1] == s[j - 1]);
        }
        lemma_key_insert_at(keys, d, x, j);
        assert(key_insert(keys, s, x) == key_insert(keys, d, x).push(s.last()));
        assert((d.subrange(0, j) + seq![x] + d.subrange(j, d.len() as int)).push(s.last())
            =~= s.subrange(0, j) + seq![x] + s.subrange(j, s.len() as int));
    }
}

/// The view of the executable key table.
pub open spec fn keys_view(keys: Seq<(Vec<char>, Vec<char>)>) -> Seq<(Seq<char>, Seq<char>)> {
    Seq::new(keys.len(), |i: int| (keys[i].0@, keys[i].1@))
}

fn key_lt_exec(keys: &Vec<(Vec<char>, Vec<char>)>, a: usize, b: usize) -> (r: bool)
    requires
        a < keys@.len(),
        b < keys@.len(),
    ensures
        r == key_lt(keys_view(keys@), a as int, b as int),
{
    let ta = &keys[a].0;
    let tb = &keys[b].0;
    if lex_lt_chars(ta, tb) {
        return true;
    }
    if titles_eq(ta, tb) {
        lex_lt_chars(&keys[a].1, &keys[b].1)
    } else {
        false
    }
}

fn titles_eq(a: &Vec<char>, b: &Vec<char>) -> (r: bool)
    ensures
        r == (a@ == b@),
{
    if a.len() != b.len() {
        return false;
    }
    let mut i: usize = 0;
    while i < a.len()
        invariant
            i <= a@.len(),
            a@.len() == b@.len(),
            forall|j: int| 0 <= j < i ==> a@[j] == b@[j],
        decreases a@.len() - i,
    {
        if a[i] != b[i] {
            return false;
        }
        i = i + 1;
    }
    proof {
        assert(a@ =~= b@);
    }
    true
}

/// Sorts note indices by their keys, stably.
fn sort_indices(keys: &Vec<(Vec<char>, Vec<char>)>, v: &Vec<usize>) -> (out: Vec<usize>)
    requires
        forall|i: int| 0 <= i < v@.len() ==> #[trigger] v@[i] < keys@.len(),
    ensures
        out@ == sort_by_key(keys_view(keys@), v@),
        forall|i: int| 0 <= i < out@.len() ==> #[trigger] out@[i] < keys@.len(),
{
    let ghost kv = keys_view(keys@);
    let mut out: Vec<usize> = Vec::new();
    let mut k: usize = 0;
    proof {
        assert(v@.take(0) =~= Seq::<usize>::empty());
    }
    while k < v.len()
        invariant
            k <= v@.len(),
            forall|i: int| 0 <= i < v@.len() ==> #[trigger] v@[i] < keys@.len(),
            forall|i: int| 0 <= i < out@.len() ==> #[trigger] out@[i] < keys@.len(),
            out@ == sort_by_key(kv, v@.take(k as int)),
            kv == keys_view(keys@),
        decreases v@.len() - k,
    {
        let x = v[k];
        let ghost before = out@;
        // find the stable insertion point from the right
        let mut j: usize = out.len();
        while j > 0 && key_lt_exec(keys, x, out[j - 1])
            invariant
                j <= out@.len(),
                out@ == before,
                x < keys@.len(),
                forall|i: int| 0 <= i < out@.len() ==> #[trigger] out@[i] < keys@.len(),
                kv == keys_view(keys@),
                forall|i: int| j <= i < out@.len() ==> key_lt(kv, x as int, #[trigger] out@[i] as int),
            decreases j,
        {
            j = j - 1;
        }
        proof {
            lemma_key_insert_at(kv, before, x, j as int);
        }
        out.insert(j, x);
        proof {
            assert(before.insert(j as int, x) =~= before.subrange(0, j as int) + seq![x]
                + before.subrange(j as int, before.len() as int));
            assert(v@.take(k as int + 1).drop_last() =~= v@.take(k as int));
            assert(v@.take(k as int + 1).last() == v@[k as int]);
        }
        k = k + 1;
    }
    proof {
        assert(v@.take(v@.len() as int) =~= v@);
    }
    out
}

/// The highest index whose note carries the given id, if any: the resolution
/// duplicate ids get.
pub open spec fn spec_last_index_of_id(notes: Seq<Note>, id: Seq<char>) -> Option<int>
    decreases notes.len(),
{
    if notes.len() == 0 {
        None
    } else if notes.last().id@ == id {
        Some(notes.len() - 1)
    } else {
        spec_last_index_of_id(notes.drop_last(), id)
    }
}

fn find_note_by_id(notes: &Vec<Note>, id: &str) -> (r: Option<usize>)
    ensures
        match r {
            Some(j) => j < notes@.len() && spec_last_index_of_id(notes@, id@) == Some(j as int),
            None => spec_last_index_of_id(notes@, id@) is None,
        },
{
    let mut k: usize = notes.len();
    proof {
        assert(notes@.take(notes@.len() as int) =~= notes@);
    }
    while k > 0
        invariant
            k <= notes@.len(),
            spec_last_index_of_id(notes@, id@) == spec_last_index_of_id(
                notes@.take(k as int),
                id@,
            ),
        decreases k,
    {
        if crate::strutil::str_eq(notes[k - 1].id.as_str(), id) {
            proof {
                assert(notes@.take(k as int).last() == notes@[k as int - 1]);
            }
            return Some(k - 1);
        }
        proof {
            assert(notes@.take(k as int).last() == notes@[k as int - 1]);
            assert(notes@.take(k as int).drop_last() =~= notes@.take(k as int - 1));
        }
        k = k - 1;
    }
    proof {
        assert(notes@.take(0) =~= Seq::<Note>::empty());
    }
    None
}

/// The effective parent of a note: its parent reference resolved to an
/// index, a dangling or absent reference meaning "root".
pub open spec fn spec_parent_of(notes: Seq<Note>, j: int) -> Option<int> {
    match notes[j].parent_id {
        Some(p) => spec_last_index_of_id(notes, p@),
        None => None,
    }
}

fn parent_of(notes: &Vec<Note>, j: usize) -> (r: Option<usize>)
    requires
        j < notes@.len(),
    ensures
        match r {
            Some(p) => p < notes@.len() && spec_parent_of(notes@, j as int) == Some(p as int),
            None => spec_parent_of(notes@, j as int) is None,
        },
{
    match &notes[j].parent_id {
        Some(p) => find_note_by_id(notes, p.as_str()),
        None => None,
    }
}

/// The note indices, in source order.
pub open spec fn index_seq(n: nat) -> Seq<usize> {
    Seq::new(n, |i: int| i as usize)
}

/// The children of note `p`: the notes whose effective parent is `p`, in
/// source order, before sibling sorting.
pub open spec fn spec_children_raw(notes: Seq<Note>, p: int) -> Seq<usize> {
    index_seq(notes.len()).filter(|j: usize| spec_parent_of(notes, j as int) == Some(p))
}

/// The roots: the notes with no effective parent, in source order.
pub open spec fn spec_roots_raw(notes: Seq<Note>) -> Seq<usize> {
    index_seq(notes.len()).filter(|j: usize| spec_parent_of(notes, j as int) is None)
}

/// The children of note `p`, in sibling order.
pub open spec fn spec_children(notes: Seq<Note>, p: int) -> Seq<usize> {
    sort_by_key(spec_note_keys(notes), spec_children_raw(notes, p))
}

/// The roots, in sibling order.
pub open spec fn spec_roots(notes: Seq<Note>) -> Seq<usize> {
    sort_by_key(spec_note_keys(notes), spec_roots_raw(notes))
}

/// How many entries of a mark vector are still unset.
pub open spec fn count_false(s: Seq<bool>) -> nat
    decreases s.len(),
{
    if s.len() == 0 {
        0
    } else {
        count_false(s.drop_last()) + (if s.last() {
            0nat
        } else {
            1nat
        })
    }
}

proof fn lemma_count_false_update(s: Seq<bool>, i: int)
    requires
        0 <= i < s.len(),
        !s[i],
    ensures
        count_false(s) >= 1,
        count_false(s.update(i, true)) == count_false(s) - 1,
    decreases s.len(),
{
    if i == s.len() - 1 {
        assert(s.update(i, true).drop_last() =~= s.drop_last());
        assert(s.update(i, true).last());
    } else {
        assert(s.update(i, true).drop_last() =~= s.drop_last().update(i, true));
        assert(s.drop_last()[i] == s[i]);
        lemma_count_false_update(s.drop_last(), i);
        assert(s.update(i, true).last() == s.last());
    }
}

proof fn lemma_count_false_le_len(s: Seq<bool>)
    ensures
        count_false(s) <= s.len(),
    decreases s.len(),
{
    if s.len() > 0 {
        lemma_count_false_le_len(s.drop_last());
    }
}

proof fn lemma_count_false_all(n: nat)
    ensures
        count_false(Seq::new(n, |i: int| false)) == n,
    decreases n,
{
    if n > 0 {
        assert(Seq::new(n, |i: int| false).drop_last() =~= Seq::new(
            (n - 1) as nat,
            |i: int| false,
        ));
        lemma_count_false_all((n - 1) as nat);
    }
}

proof fn lemma_count_false_pointwise(s1: Seq<bool>, s2: Seq<bool>, j: int)
    requires
        s1.len() == s2.len(),
        forall|i: int| 0 <= i < s1.len() && s1[i] ==> s2[i],
        0 <= j < s1.len(),
        !s1[j],
        s2[j],
    ensures
        count_false(s2) < count_false(s1),
    decreases s1.len(),
{
    lemma_count_false_mono(s1, s2);
    if j == s1.len() - 1 {
        lemma_count_false_mono(s1.drop_last(), s2.drop_last());
        assert(forall|i: int| 0 <= i < s1.len() - 1 ==> s1.drop_last()[i] == s1[i]);
    } else {
        assert(forall|i: int|
            0 <= i < s1.len() - 1 ==> s1.drop_last()[i] == s1[i] && s2.drop_last()[i] == s2[i]);
        lemma_count_false_pointwise(s1.drop_last(), s2.drop_last(), j);
    }
}

proof fn lemma_count_false_mono(s1: Seq<bool>, s2: Seq<bool>)
    requires
        s1.len() == s2.len(),
        forall|i: int| 0 <= i < s1.len() && s1[i] ==> s2[i],
    ensures
        count_false(s2) <= count_false(s1),
    decreases s1.len(),
{
    if s1.len() > 0 {
        assert(forall|i: int|
            0 <= i < s1.len() - 1 ==> s1.drop_last()[i] == s1[i] && s2.drop_last()[i] == s2[i]);
        lemma_count_false_mono(s1.drop_last(), s2.drop_last());
        assert(s1[s1.len() - 1] == s1.last() && s2[s2.len() - 1] == s2.last());
    }
}

/// The views of the executable children table.
pub open spec fn kids_view(ks: Seq<Vec<usize>>) -> Seq<Seq<usize>> {
    Seq::new(ks.len(), |i: int| ks[i]@)
}

/// A traversal state: which notes were visited, the emitted order, and the
/// emitted depths.
pub type DfsSt = (Seq<bool>, Seq<usize>, Seq<usize>);

/// Depth-first pre-order emission. Walks `list`; each unvisited entry is
/// marked, emitted at `depth`, and, when it is expanded, its children are
/// walked at `depth + 1` before the rest of `list`. The fuel only bounds the
/// descent and is never exhausted when it is at least the number of
/// unvisited notes.
pub open spec fn spec_dfs(
    kids: Seq<Seq<usize>>,
    expand: Seq<bool>,
    list: Seq<usize>,
    depth: usize,
    st: DfsSt,
    fuel: nat,
) -> DfsSt
    decreases fuel, list.len(),
{
    if list.len() == 0 {
        st
    } else {
        let c = list[0];
        let st1 = if c < st.0.len() && !st.0[c as int] {
            let stm = (st.0.update(c as int, true), st.1.push(c), st.2.push(depth));
            if c < expand.len() && expand[c as int] && c < kids.len() && fuel > 0 {
                spec_dfs(kids, expand, kids[c as int], (depth + 1) as usize, stm, (fuel - 1) as nat)
            } else {
                stm
            }
        } else {
            st
        };
        spec_dfs(kids, expand, list.drop_first(), depth, st1, fuel)
    }
}

/// Walks one list of note indices depth-first, as `spec_dfs` describes:
/// every unvisited entry is visited and emitted at `depth`, and an expanded
/// entry has its children walked beneath it first.
pub fn dfs_notes(
    kids: &Vec<Vec<usize>>,
    expand: &Vec<bool>,
    list: &Vec<usize>,
    depth: usize,
    visited: &mut Vec<bool>,
    order: &mut Vec<usize>,
    depths: &mut Vec<usize>,
    Ghost(fuel): Ghost<nat>,
)
    requires
        old(visited)@.len() == kids@.len(),
        expand@.len() == kids@.len(),
        forall|i: int| 0 <= i < list@.len() ==> (#[trigger] list@[i]) < kids@.len(),
        forall|p: int, i: int|
            0 <= p < kids@.len() && 0 <= i < kids@[p]@.len() ==> (#[trigger] kids@[p]@[i])
                < kids@.len(),
        fuel >= count_false(old(visited)@),
        depth + fuel <= usize::MAX,
    ensures
        ({
            let r = spec_dfs(
                kids_view(kids@),
                expand@,
                list@,
                depth,
                (old(visited)@, old(order)@, old(depths)@),
                fuel,
            );
            &&& final(visited)@ == r.0
            &&& final(order)@ == r.1
            &&& final(depths)@ == r.2
        }),
        final(visited)@.len() == old(visited)@.len(),
        count_false(final(visited)@) <= count_false(old(visited)@),
        forall|i: int| 0 <= i < old(visited)@.len() && old(visited)@[i] ==> final(visited)@[i],
    decreases fuel,
{
    let ghost kv = kids_view(kids@);
    let ghost st0: DfsSt = (old(visited)@, old(order)@, old(depths)@);
    let mut k: usize = 0;
    proof {
        assert(list@.skip(0) =~= list@);
    }
    loop
        invariant
            k <= list@.len(),
            visited@.len() == kids@.len(),
            expand@.len() == kids@.len(),
            forall|i: int| 0 <= i < list@.len() ==> (#[trigger] list@[i]) < kids@.len(),
            forall|p: int, i: int|
                0 <= p < kids@.len() && 0 <= i < kids@[p]@.len() ==> (#[trigger] kids@[p]@[i])
                    < kids@.len(),
            kv == kids_view(kids@),
            st0.0.len() == kids@.len(),
            count_false(visited@) <= count_false(st0.0),
            count_false(st0.0) <= fuel,
            depth + fuel <= usize::MAX,
            forall|i: int| 0 <= i < st0.0.len() && st0.0[i] ==> visited@[i],
            spec_dfs(kv, expand@, list@, depth, st0, fuel) == spec_dfs(
                kv,
                expand@,
                list@.skip(k as int),
                depth,
                (visited@, order@, depths@),
                fuel,
            ),
        ensures
            spec_dfs(kv, expand@, list@, depth, st0, fuel) == (visited@, order@, depths@),
            count_false(visited@) <= count_false(st0.0),
            forall|i: int| 0 <= i < st0.0.len() && st0.0[i] ==> visited@[i],
            visited@.len() == kids@.len(),
        decreases list@.len() - k,
    {
        if k >= list.len() {
            proof {
                assert(list@.skip(k as int) =~= Seq::<usize>::empty());
            }
            break ;
        }
        let c = list[k];
        proof {
            assert(list@.skip(k as int)[0] == list@[k as int]);
            assert(list@.skip(k as int).drop_first() =~= list@.skip(k as int + 1));
        }
        if !visited[c] {
            let ghost before: DfsSt = (visited@, order@, depths@);
            proof {
                lemma_count_false_update(visited@, c as int);
            }
            let slot = &mut visited[c];
            *slot = true;
            order.push(c);
            depths.push(depth);
            if expand[c] {
                proof {
                    lemma_count_false_le_len(visited@);
                }
                dfs_notes(
                    kids,
                    expand,
                    &kids[c],
                    depth + 1,
                    visited,
                    order,
                    depths,
                    Ghost((fuel - 1) as nat),
                );
            }
        }
        k = k + 1;
    }
}

/// Marks every note whose id equals `id`.
pub open spec fn mark_id(notes: Seq<Note>, marks: Seq<bool>, id: Seq<char>) -> Seq<bool> {
    Seq::new(marks.len(), |k: int| marks[k] || (0 <= k < notes.len() && notes[k].id@ == id))
}

/// The notes on the ancestor chain of the anchor: starting from the note the
/// anchor id names, every note with the walked id is marked and the walk
/// moves to the effective parent, stopping at a root, a dangling reference
/// or an already-marked note (which closes a cycle).
pub open spec fn spec_chain_marks(
    notes: Seq<Note>,
    cur: Option<int>,
    marks: Seq<bool>,
    fuel: nat,
) -> Seq<bool>
    decreases fuel,
{
    match cur {
        None => marks,
        Some(j) => if !(0 <= j < marks.len() && j < notes.len()) {
            marks
        } else if marks[j] {
            marks
        } else if fuel == 0 {
            marks
        } else {
            spec_chain_marks(
                notes,
                spec_parent_of(notes, j),
                mark_id(notes, marks, notes[j].id@),
                (fuel - 1) as nat,
            )
        },
    }
}

fn make_bools(n: usize, val: bool) -> (v: Vec<bool>)
    ensures
        v@ == Seq::new(n as nat, |i: int| val),
{
    let mut v: Vec<bool> = Vec::new();
    let mut i: usize = 0;
    while i < n
        invariant
            i <= n,
            v@ == Seq::new(i as nat, |t: int| val),
        decreases n - i,
    {
        v.push(val);
        proof {
            assert(Seq::new(i as nat, |t: int| val).push(val) =~= Seq::new(
                i as nat + 1,
                |t: int| val,
            ));
        }
        i = i + 1;
    }
    v
}

/// The marks after the first `k` notes were compared against note `j`'s id.
pub open spec fn partial_mark(notes: Seq<Note>, before: Seq<bool>, j: int, k: int) -> Seq<bool> {
    Seq::new(
        before.len(),
        |t: int| before[t] || (t < k && 0 <= j < notes.len() && notes[t].id@ == notes[j].id@),
    )
}

/// Sets the mark of every note whose id equals that of note `j`.
fn mark_same_id(notes: &Vec<Note>, marks: &mut Vec<bool>, j: usize)
    requires
        j < notes@.len(),
        old(marks)@.len() == notes@.len(),
    ensures
        final(marks)@ == mark_id(notes@, old(marks)@, notes@[j as int].id@),
        final(marks)@.len() == old(marks)@.len(),
        forall|t: int| 0 <= t < old(marks)@.len() && old(marks)@[t] ==> final(marks)@[t],
        final(marks)@[j as int],
{
    let n = notes.len();
    let ghost before = marks@;
    let mut k: usize = 0;
    proof {
        assert(marks@ =~= partial_mark(notes@, before, j as int, 0));
    }
    while k < n
        invariant
            k <= n,
            n == notes@.len(),
            j < n,
            marks@.len() == n as nat,
            before.len() == n as nat,
            marks@ == partial_mark(notes@, before, j as int, k as int),
        decreases n - k,
    {
        let ghost mprev = marks@;
        let same = crate::strutil::str_eq(notes[k].id.as_str(), notes[j].id.as_str());
        if same {
            let slot = &mut marks[k];
            *slot = true;
            proof {
                assert(marks@ =~= mprev.update(k as int, true));
            }
        }
        proof {
            assert(same == (notes@[k as int].id@ == notes@[j as int].id@));
            assert(marks@ =~= partial_mark(notes@, before, j as int, k as int + 1));
        }
        k = k + 1;
    }
    proof {
        let tid = notes@[j as int].id@;
        assert(marks@ =~= mark_id(notes@, before, tid));
        assert(marks@[j as int]);
    }
}

/// Computes the anchor's expanded chain, as `spec_chain_marks` describes
/// with the walk started at the note the anchor id resolves to.
fn chain_marks(notes: &Vec<Note>, anchor: &str) -> (marks: Vec<bool>)
    ensures
        marks@ == spec_chain_marks(
            notes@,
            spec_last_index_of_id(notes@, anchor@),
            Seq::new(notes@.len(), |i: int| false),
            notes@.len(),
        ),
        marks@.len() == notes@.len(),
{
    let n = notes.len();
    let mut marks = make_bools(n, false);
    let mut cur = find_note_by_id(notes, anchor);
    let ghost start = spec_last_index_of_id(notes@, anchor@);
    let ghost mut fuel: nat = n as nat;
    proof {
        lemma_count_false_all(n as nat);
    }
    loop
        invariant
            marks@.len() == n as nat,
            n == notes@.len(),
            count_false(marks@) <= fuel,
            match cur {
                Some(j) => j < n && spec_chain_marks(notes@, start, Seq::new(n as nat, |i: int| false), n as nat)
                    == spec_chain_marks(notes@, Some(j as int), marks@, fuel),
                None => spec_chain_marks(notes@, start, Seq::new(n as nat, |i: int| false), n as nat)
                    == marks@,
            },
        ensures
            spec_chain_marks(notes@, start, Seq::new(n as nat, |i: int| false), n as nat)
                == marks@,
            marks@.len() == n as nat,
        decreases fuel,
    {
        match cur {
            None => {
                break ;
            },
            Some(j) => {
                if marks[j] {
                    break ;
                }
                proof {
                    lemma_count_false_update(marks@, j as int);
                }
                let ghost before = marks@;
                let ghost fuel_old = fuel;
                mark_same_id(notes, &mut marks, j);
                cur = parent_of(notes, j);
                proof {
                    assert(fuel_old >= 1) by {
                        assert(count_false(before) >= 1);
                    }
                    assert(spec_chain_marks(notes@, Some(j as int), before, fuel_old)
                        == spec_chain_marks(
                        notes@,
                        spec_parent_of(notes@, j as int),
                        mark_id(notes@, before, notes@[j as int].id@),
                        (fuel_old - 1) as nat,
                    ));
                    assert(!before[j as int] && marks@[j as int]);
                    lemma_count_false_pointwise(before, marks@, j as int);
                    fuel = (fuel_old - 1) as nat;
                }
            },
        }
    }
    marks
}

/// Emits, in index order, every note the full traversal from the roots does
/// not reach: these close cycles. Each surfaces once at depth 0 and, when
/// expanded, has its children walked beneath it.
pub open spec fn spec_cleanup(
    kids: Seq<Seq<usize>>,
    expand: Seq<bool>,
    reach: Seq<bool>,
    idx: nat,
    st: DfsSt,
) -> DfsSt
    decreases kids.len() - idx when idx <= kids.len()
{
    if idx >= kids.len() {
        st
    } else {
        let st1 = if idx < st.0.len() && !st.0[idx as int] && idx < reach.len() && !reach[idx as int] {
            let stm = (st.0.update(idx as int, true), st.1.push(idx as usize), st.2.push(0usize));
            if idx < expand.len() && expand[idx as int] {
                spec_dfs(kids, expand, kids[idx as int], 1usize, stm, st.0.len())
            } else {
                stm
            }
        } else {
            st
        };
        spec_cleanup(kids, expand, reach, idx + 1, st1)
    }
}

/// The derived display order and depths of the notes forest: roots and
/// siblings in key order, parents before children, anchored fold expanding
/// only the anchor's ancestor chain, and notes unreachable from any root
/// surfacing once at depth 0.
pub open spec fn spec_note_order(notes: Seq<Note>, anchor: Option<Seq<char>>) -> (
    Seq<usize>,
    Seq<usize>,
) {
    let n = notes.len();
    let kids = Seq::new(n, |p: int| spec_children(notes, p));
    let roots = spec_roots(notes);
    let all = Seq::new(n, |i: int| true);
    let none = Seq::new(n, |i: int| false);
    let expand = match anchor {
        None => all,
        Some(a) => spec_chain_marks(notes, spec_last_index_of_id(notes, a), none, n),
    };
    let empty_st = (none, Seq::<usize>::empty(), Seq::<usize>::empty());
    let reach = spec_dfs(kids, all, roots, 0usize, empty_st, n).0;
    let main = spec_dfs(kids, expand, roots, 0usize, empty_st, n);
    let fin = spec_cleanup(kids, expand, reach, 0, main);
    (fin.1, fin.2)
}

/// Derives the notes display order and depth per row, exactly as
/// `spec_note_order` describes: full mode expands everything; anchor mode
/// expands only the anchor's ancestor chain, other roots staying collapsed
/// with their descendants omitted; cyclic chains surface as root-level rows.
pub fn build_note_order(notes: &Vec<Note>, anchor: Option<&str>) -> (r: (Vec<usize>, Vec<usize>))
    requires
        notes@.len() < usize::MAX,
    ensures
        ({
            let (o, d) = spec_note_order(
                notes@,
                match anchor {
                    Some(a) => Some(a@),
                    None => None,
                },
            );
            r.0@ == o && r.1@ == d
        }),
{
    let n = notes.len();
    let ghost nn = notes@.len();
    // sibling keys
    let mut keys: Vec<(Vec<char>, Vec<char>)> = Vec::new();
    let mut i: usize = 0;
    while i < n
        invariant
            i <= n,
            n == notes@.len(),
            keys@.len() == i as nat,
            forall|t: int|
                0 <= t < i ==> (#[trigger] keys@[t]).0@ == lower_of(
                    spec_display_title(notes@[t]),
                ) && keys@[t].1@ == notes@[t].created_at@,
        decreases n - i,
    {
        let title = note_display_title(&notes[i]);
        let low = lowercase(title.as_str());
        let tk = chars_of_str(low.as_str());
        let ck = chars_of_str(notes[i].created_at.as_str());
        keys.push((tk, ck));
        i = i + 1;
    }
    proof {
        assert(keys_view(keys@) =~= spec_note_keys(notes@));
    }
    // effective parents
    let mut parent: Vec<Option<usize>> = Vec::new();
    let mut i: usize = 0;
    while i < n
        invariant
            i <= n,
            n == notes@.len(),
            parent@.len() == i as nat,
            forall|t: int|
                0 <= t < i ==> (match #[trigger] parent@[t] {
                    Some(p) => p < n && spec_parent_of(notes@, t) == Some(p as int),
                    None => spec_parent_of(notes@, t) is None,
                }),
        decreases n - i,
    {
        let p = parent_of(notes, i);
        parent.push(p);
        i = i + 1;
    }
    // children lists, in sibling order
    let mut kids: Vec<Vec<usize>> = Vec::new();
    let mut p: usize = 0;
    while p < n
        invariant
            p <= n,
            n == notes@.len(),
            keys_view(keys@) == spec_note_keys(notes@),
            keys@.len() == n as nat,
            parent@.len() == n as nat,
            forall|t: int|
                0 <= t < n ==> (match #[trigger] parent@[t] {
                    Some(q) => q < n && spec_parent_of(notes@, t) == Some(q as int),
                    None => spec_parent_of(notes@, t) is None,
                }),
            kids@.len() == p as nat,
            forall|t: int| 0 <= t < p ==> (#[trigger] kids@[t])@ == spec_children(notes@, t),
            forall|t: int, u: int|
                0 <= t < p && 0 <= u < kids@[t]@.len() ==> (#[trigger] kids@[t]@[u]) < n,
        decreases n - p,
    {
        let raw = collect_children(&parent, n, p, Ghost(notes@));
        let sorted = sort_indices(&keys, &raw);
        proof {
            assert(sorted@ == spec_children(notes@, p as int));
        }
        kids.push(sorted);
        p = p + 1;
    }
    proof {
        assert(kids_view(kids@) =~= Seq::new(nn, |q: int| spec_children(notes@, q)));
    }
    let roots_raw = collect_roots(&parent, n, Ghost(notes@));
    let roots = sort_indices(&keys, &roots_raw);
    proof {
        assert(roots@ == spec_roots(notes@));
    }
    // expanded set
    let all_true = make_bools(n, true);
    let expand = match anchor {
        None => make_bools(n, true),
        Some(a) => chain_marks(notes, a),
    };
    // reachability: the full traversal from the roots
    let mut reach = make_bools(n, false);
    let mut order_scratch: Vec<usize> = Vec::new();
    let mut depths_scratch: Vec<usize> = Vec::new();
    proof {
        lemma_count_false_all(nn);
    }
    dfs_notes(
        &kids,
        &all_true,
        &roots,
        0,
        &mut reach,
        &mut order_scratch,
        &mut depths_scratch,
        Ghost(nn),
    );
    // the fold-respecting traversal
    let mut visited = make_bools(n, false);
    let mut order: Vec<usize> = Vec::new();
    let mut depths: Vec<usize> = Vec::new();
    dfs_notes(&kids, &expand, &roots, 0, &mut visited, &mut order, &mut depths, Ghost(nn));
    let ghost main_st: DfsSt = (visited@, order@, depths@);
    // cycle rows: unreachable notes surface once, in index order, at depth 0
    let ghost kv = kids_view(kids@);
    let mut idx: usize = 0;
    while idx < n
        invariant
            idx <= n,
            n == notes@.len(),
            nn == n as nat,
            n < usize::MAX,
            kv == kids_view(kids@),
            kids@.len() == n as nat,
            expand@.len() == n as nat,
            reach@.len() == n as nat,
            visited@.len() == n as nat,
            forall|t: int, u: int|
                0 <= t < n && 0 <= u < kids@[t]@.len() ==> (#[trigger] kids@[t]@[u]) < n,
            spec_cleanup(kv, expand@, reach@, 0, main_st) == spec_cleanup(
                kv,
                expand@,
                reach@,
                idx as nat,
                (visited@, order@, depths@),
            ),
        decreases n - idx,
    {
        let ghost prev_st: DfsSt = (visited@, order@, depths@);
        if !reach[idx] && !visited[idx] {
            let slot = &mut visited[idx];
            *slot = true;
            order.push(idx);
            depths.push(0);
            let ghost stm: DfsSt = (visited@, order@, depths@);
            proof {
                assert(stm.0 =~= prev_st.0.update(idx as int, true));
            }
            if expand[idx] {
                proof {
                    lemma_count_false_le_len(visited@);
                }
                dfs_notes(
                    &kids,
                    &expand,
                    &kids[idx],
                    1,
                    &mut visited,
                    &mut order,
                    &mut depths,
                    Ghost(nn),
                );
                proof {
                    assert((visited@, order@, depths@) == spec_dfs(
                        kv,
                        expand@,
                        kids@[idx as int]@,
                        1usize,
                        stm,
                        nn,
                    ));
                    assert(kv[idx as int] == kids@[idx as int]@);
                }
            }
            proof {
                assert(spec_cleanup(kv, expand@, reach@, idx as nat, prev_st) == spec_cleanup(
                    kv,
                    expand@,
                    reach@,
                    idx as nat + 1,
                    (visited@, order@, depths@),
                ));
            }
        } else {
            proof {
                assert(spec_cleanup(kv, expand@, reach@, idx as nat, prev_st) == spec_cleanup(
                    kv,
                    expand@,
                    reach@,
                    idx as nat + 1,
                    prev_st,
                ));
            }
        }
        idx = idx + 1;
    }
    (order, depths)
}

/// A traversal state in good shape: the emitted order holds only in-range,
/// visited indices, holds no index twice, and holds every visited index.
pub open spec fn order_ok(n: int, st: DfsSt) -> bool {
    &&& st.0.len() == n
    &&& (forall|k: int, l: int| 0 <= k < l < st.1.len() ==> st.1[k] != st.1[l])
    &&& (forall|k: int|
        0 <= k < st.1.len() ==> (#[trigger] st.1[k]) < n && st.0[st.1[k] as int])
    &&& (forall|i: int| 0 <= i < n && st.0[i] ==> st.1.contains(i as usize))
}

proof fn lemma_push_keeps_order_ok(n: int, st: DfsSt, c: usize, depth: usize)
    requires
        order_ok(n, st),
        c < n,
        !st.0[c as int],
    ensures
        order_ok(n, (st.0.update(c as int, true), st.1.push(c), st.2.push(depth))),
{
    let o2 = st.1.push(c);
    let v2 = st.0.update(c as int, true);
    assert(!st.1.contains(c)) by {
        if st.1.contains(c) {
            let w = choose|k: int| 0 <= k < st.1.len() && st.1[k] == c;
            assert(st.0[st.1[w] as int]);
        }
    }
    assert forall|k: int, l: int| 0 <= k < l < o2.len() implies o2[k] != o2[l] by {
        if l == o2.len() - 1 {
            assert(o2[k] == st.1[k]);
            if o2[k] == c {
                assert(st.1.contains(c)) by {
                    assert(st.1[k] == c);
                }
            }
        }
    }
    assert forall|i: int| 0 <= i < n && v2[i] implies o2.contains(i as usize) by {
        if i == c {
            assert(o2[o2.len() - 1] == c);
        } else {
            assert(st.0[i]);
            let w = choose|k: int| 0 <= k < st.1.len() && st.1[k] == i as usize;
            assert(o2[w] == i as usize);
        }
    }
}

proof fn lemma_dfs_keeps_order_ok(
    kids: Seq<Seq<usize>>,
    expand: Seq<bool>,
    list: Seq<usize>,
    depth: usize,
    st: DfsSt,
    fuel: nat,
    n: int,
)
    requires
        order_ok(n, st),
    ensures
        ({
            let r = spec_dfs(kids, expand, list, depth, st, fuel);
            &&& order_ok(n, r)
            &&& forall|i: int| 0 <= i < n && st.0[i] ==> r.0[i]
        }),
    decreases fuel, list.len(),
{
    if list.len() == 0 {
    } else {
        let c = list[0];
        if c < st.0.len() && !st.0[c as int] {
            let stm = (st.0.update(c as int, true), st.1.push(c), st.2.push(depth));
            lemma_push_keeps_order_ok(n, st, c, depth);
            let st1 = if c < expand.len() && expand[c as int] && c < kids.len() && fuel > 0 {
                spec_dfs(kids, expand, kids[c as int], (depth + 1) as usize, stm, (fuel - 1) as nat)
            } else {
                stm
            };
            if c < expand.len() && expand[c as int] && c < kids.len() && fuel > 0 {
                lemma_dfs_keeps_order_ok(
                    kids,
                    expand,
                    kids[c as int],
                    (depth + 1) as usize,
                    stm,
                    (fuel - 1) as nat,
                    n,
                );
            }
            lemma_dfs_keeps_order_ok(kids, expand, list.drop_first(), depth, st1, fuel, n);
        } else {
            lemma_dfs_keeps_order_ok(kids, expand, list.drop_first(), depth, st, fuel, n);
        }
    }
}

proof fn lemma_cleanup_keeps_order_ok(
    kids: Seq<Seq<usize>>,
    expand: Seq<bool>,
    reach: Seq<bool>,
    idx: nat,
    st: DfsSt,
    n: int,
)
    requires
        order_ok(n, st),
        idx <= kids.len(),
        kids.len() == n,
        reach.len() == n,
        n <= usize::MAX,
    ensures
        ({
            let r = spec_cleanup(kids, expand, reach, idx, st);
            &&& order_ok(n, r)
            &&& (forall|i: int| 0 <= i < n && st.0[i] ==> r.0[i])
            &&& (forall|i: int| idx <= i < n ==> reach[i] || r.0[i])
        }),
    decreases kids.len() - idx,
{
    if idx >= kids.len() {
    } else {
        let st1 = if idx < st.0.len() && !st.0[idx as int] && idx < reach.len() && !reach[
            idx as int] {
            let stm = (st.0.update(idx as int, true), st.1.push(idx as usize), st.2.push(0usize));
            if idx < expand.len() && expand[idx as int] {
                spec_dfs(kids, expand, kids[idx as int], 1usize, stm, st.0.len())
            } else {
                stm
            }
        } else {
            st
        };
        if idx < st.0.len() && !st.0[idx as int] && idx < reach.len() && !reach[idx as int] {
            let stm = (st.0.update(idx as int, true), st.1.push(idx as usize), st.2.push(0usize));
            lemma_push_keeps_order_ok(n, st, idx as usize, 0usize);
            if idx < expand.len() && expand[idx as int] {
                lemma_dfs_keeps_order_ok(
                    kids,
                    expand,
                    kids[idx as int],
                    1usize,
                    stm,
                    st.0.len(),
                    n,
                );
            }
        }
        lemma_cleanup_keeps_order_ok(kids, expand, reach, idx + 1, st1, n);
    }
}

/// Every note appears at most once in the derived order, always at an index
/// inside the collection; with the full fold (no anchor) every note appears
/// exactly once, cyclic chains included.
pub proof fn lemma_note_order_exactly_once(notes: Seq<Note>, anchor: Option<Seq<char>>)
    requires
        notes.len() <= usize::MAX,
    ensures
        ({
            let (o, d) = spec_note_order(notes, anchor);
            &&& (forall|k: int, l: int| 0 <= k < l < o.len() ==> o[k] != o[l])
            &&& (forall|k: int| 0 <= k < o.len() ==> (#[trigger] o[k]) < notes.len())
            &&& (anchor is None ==> forall|i: int|
                0 <= i < notes.len() ==> #[trigger] o.contains(i as usize))
        }),
{
    let n = notes.len();
    let kids = Seq::new(n, |p: int| spec_children(notes, p));
    let roots = spec_roots(notes);
    let all = Seq::new(n, |i: int| true);
    let none = Seq::new(n, |i: int| false);
    let expand = match anchor {
        None => all,
        Some(a) => spec_chain_marks(notes, spec_last_index_of_id(notes, a), none, n),
    };
    let empty_st = (none, Seq::<usize>::empty(), Seq::<usize>::empty());
    assert(order_ok(n as int, empty_st));
    let reach_st = spec_dfs(kids, all, roots, 0usize, empty_st, n);
    let main = spec_dfs(kids, expand, roots, 0usize, empty_st, n);
    lemma_dfs_keeps_order_ok(kids, all, roots, 0usize, empty_st, n, n as int);
    lemma_dfs_keeps_order_ok(kids, expand, roots, 0usize, empty_st, n, n as int);
    lemma_cleanup_keeps_order_ok(kids, expand, reach_st.0, 0, main, n as int);
    let fin = spec_cleanup(kids, expand, reach_st.0, 0, main);
    if anchor is None {
        assert(reach_st == main);
        assert forall|i: int| 0 <= i < n implies #[trigger] fin.1.contains(i as usize) by {
            assert(reach_st.0[i] || fin.0[i]);
            if reach_st.0[i] {
                assert(main.0[i]);
                assert(fin.0[i]);
            }
        }
    }
}

/// Collects, in source order, the indices whose effective parent is `p`.
fn collect_children(
    parent: &Vec<Option<usize>>,
    n: usize,
    p: usize,
    Ghost(notes): Ghost<Seq<Note>>,
) -> (out: Vec<usize>)
    requires
        parent@.len() == n as nat,
        n == notes.len(),
        forall|t: int|
            0 <= t < n ==> (match #[trigger] parent@[t] {
                Some(q) => q < n && spec_parent_of(notes, t) == Some(q as int),
                None => spec_parent_of(notes, t) is None,
            }),
    ensures
        out@ == spec_children_raw(notes, p as int),
        forall|u: int| 0 <= u < out@.len() ==> (#[trigger] out@[u]) < n,
{
    let ghost ids = index_seq(notes.len());
    let ghost pred_c = |j: usize| spec_parent_of(notes, j as int) == Some(p as int);
    let mut out: Vec<usize> = Vec::new();
    let mut j: usize = 0;
    proof {
        reveal(Seq::filter);
        assert(ids.take(0) =~= Seq::<usize>::empty());
    }
    while j < n
        invariant
            j <= n,
            n == notes.len(),
            parent@.len() == n as nat,
            forall|t: int|
                0 <= t < n ==> (match #[trigger] parent@[t] {
                    Some(q) => q < n && spec_parent_of(notes, t) == Some(q as int),
                    None => spec_parent_of(notes, t) is None,
                }),
            ids == index_seq(notes.len()),
            pred_c == (|j2: usize| spec_parent_of(notes, j2 as int) == Some(p as int)),
            out@ == ids.take(j as int).filter(pred_c),
            forall|u: int| 0 <= u < out@.len() ==> (#[trigger] out@[u]) < n,
        decreases n - j,
    {
        let matches_here = match &parent[j] {
            Some(a) => *a == p,
            None => false,
        };
        proof {
            reveal(Seq::filter);
            assert(ids.take(j as int + 1).drop_last() =~= ids.take(j as int));
            assert(ids.take(j as int + 1).last() == ids[j as int]);
            assert(ids[j as int] == j as usize);
            assert(matches_here == pred_c(j as usize));
        }
        if matches_here {
            out.push(j);
        }
        j = j + 1;
    }
    proof {
        assert(ids.take(n as int) =~= ids);
    }
    out
}

/// Collects, in source order, the indices with no effective parent.
fn collect_roots(parent: &Vec<Option<usize>>, n: usize, Ghost(notes): Ghost<Seq<Note>>) -> (out:
    Vec<usize>)
    requires
        parent@.len() == n as nat,
        n == notes.len(),
        forall|t: int|
            0 <= t < n ==> (match #[trigger] parent@[t] {
                Some(q) => q < n && spec_parent_of(notes, t) == Some(q as int),
                None => spec_parent_of(notes, t) is None,
            }),
    ensures
        out@ == spec_roots_raw(notes),
        forall|u: int| 0 <= u < out@.len() ==> (#[trigger] out@[u]) < n,
{
    let ghost ids = index_seq(notes.len());
    let ghost pred_c = |j: usize| spec_parent_of(notes, j as int) is None;
    let mut out: Vec<usize> = Vec::new();
    let mut j: usize = 0;
    proof {
        reveal(Seq::filter);
        assert(ids.take(0) =~= Seq::<usize>::empty());
    }
    while j < n
        invariant
            j <= n,
            n == notes.len(),
            parent@.len() == n as nat,
            forall|t: int|
                0 <= t < n ==> (match #[trigger] parent@[t] {
                    Some(q) => q < n && spec_parent_of(notes, t) == Some(q as int),
                    None => spec_parent_of(notes, t) is None,
                }),
            ids == index_seq(notes.len()),
            pred_c == (|j2: usize| spec_parent_of(notes, j2 as int) is None),
            out@ == ids.take(j as int).filter(pred_c),
            forall|u: int| 0 <= u < out@.len() ==> (#[trigger] out@[u]) < n,
        decreases n - j,
    {
        let matches_here = match &parent[j] {
            Some(_) => false,
            None => true,
        };
        proof {
            reveal(Seq::filter);
            assert(ids.take(j as int + 1).drop_last() =~= ids.take(j as int));
            assert(ids.take(j as int + 1).last() == ids[j as int]);
            assert(ids[j as int] == j as usize);
            assert(matches_here == pred_c(j as usize));
        }
        if matches_here {
            out.push(j);
        }
        j = j + 1;
    }
    proof {
        assert(ids.take(n as int) =~= ids);
    }
    out
}

} // verus!
