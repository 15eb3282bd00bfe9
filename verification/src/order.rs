//! Deriving the work queue: which rows are shown, in what order, and how
//! many. Rows are gathered from the selected source groups, optionally
//! restricted to those already due, sorted ascending by due time with
//! undated rows after all dated ones (stably, so equal and undated rows keep
//! their source order), and finally cut to the daily limit.

use vstd::prelude::*;
use crate::data::{spec_group, spec_question_of, ErrorData, Question, RowRef, SourceKind};
use crate::strutil::{contains_chars, chars_of_str, contains_seq, join_strings, join_with, lower_of, lowercase};

verus! {

/// The due time of a question's whole-item schedule, if any.
pub open spec fn spec_question_due(q: Question) -> Option<i64> {
    match q.exam {
        Some(e) => e.due,
        None => None,
    }
}

/// A row paired with its due time, the unit the ordering works on.
pub type DueRow = (RowRef, Option<i64>);

/// Strictly-before on due times: a dated row comes before a later-dated one
/// and before every undated row; undated rows come before nothing.
pub open spec fn due_lt(a: Option<i64>, b: Option<i64>) -> bool {
    match a {
        Some(x) => match b {
            Some(y) => x < y,
            None => true,
        },
        None => false,
    }
}

fn due_lt_exec(a: Option<i64>, b: Option<i64>) -> (r: bool)
    ensures
        r == due_lt(a, b),
{
    match a {
        Some(x) => match b {
            Some(y) => x < y,
            None => true,
        },
        None => false,
    }
}

/// Where a stable insertion puts `x`: after every row whose due time is not
/// strictly after `x`'s, so rows with equal or missing due keep their order.
pub open spec fn sort_insert(s: Seq<DueRow>, x: DueRow) -> Seq<DueRow>
    decreases s.len(),
{
    if s.len() == 0 {
        seq![x]
    } else if due_lt(x.1, s.last().1) {
        sort_insert(s.drop_last(), x).push(s.last())
    } else {
        s.push(x)
    }
}

/// Stable sort by due time: rows are inserted in source order.
pub open spec fn stable_sort_by_due(s: Seq<DueRow>) -> Seq<DueRow>
    decreases s.len(),
{
    if s.len() == 0 {
        s
    } else {
        sort_insert(stable_sort_by_due(s.drop_last()), s.last())
    }
}

/// A stable insertion lands exactly at the split point `j`: everything at or
/// after `j` is strictly later than `x`, and the row just before `j` is not.
pub proof fn lemma_sort_insert_at(s: Seq<DueRow>, x: DueRow, j: int)
    requires
        0 <= j <= s.len(),
        forall|i: int| j <= i < s.len() ==> due_lt(x.1, #[trigger] s[i].1),
        j > 0 ==> !due_lt(x.1, s[j - 1].1),
    ensures
        sort_insert(s, x) == s.subrange(0, j) + seq![x] + s.subrange(j, s.len() as int),
    decreases s.len(),
{
    if s.len() == 0 {
        assert(sort_insert(s, x) =~= s.subrange(0, j) + seq![x] + s.subrange(j, s.len() as int));
    } else if j == s.len() {
        assert(!due_lt(x.1, s.last().1));
        assert(sort_insert(s, x) == s.push(x));
        assert(s.subrange(0, j) =~= s);
        assert(sort_insert(s, x) =~= s.subrange(0, j) + seq![x] + s.subrange(j, s.len() as int));
    } else {
        assert(due_lt(x.1, s.last().1)) by {
            assert(s[s.len() - 1] == s.last());
        }
        let d = s.drop_last();
        assert(forall|i: int| j <= i < d.len() ==> due_lt(x.1, #[trigger] d[i].1)) by {
            assert(forall|i: int| 0 <= i < d.len() ==> d[i] == s[i]);
        }
        if j > 0 {
            assert(d[j - 1] == s[j - 1]);
        }
        lemma_sort_insert_at(d, x, j);
        assert(sort_insert(s, x) == sort_insert(d, x).push(s.last()));
        assert((d.subrange(0, j) + seq![x] + d.subrange(j, d.len() as int)).push(s.last())
            =~= s.subrange(0, j) + seq![x] + s.subrange(j, s.len() as int));
    }
}

/// Inserts one row into an already-sorted buffer at its stable position.
fn sorted_insert(out: &mut Vec<DueRow>, x: DueRow)
    ensures
        final(out)@ == sort_insert(old(out)@, x),
{
    let mut j: usize = out.len();
    while j > 0 && due_lt_exec(x.1, out[j - 1].1)
        invariant
            j <= out@.len(),
            out@ == old(out)@,
            forall|i: int| j <= i < out@.len() ==> due_lt(x.1, #[trigger] out@[i].1),
        decreases j,
    {
        j = j - 1;
    }
    proof {
        lemma_sort_insert_at(out@, x, j as int);
    }
    let ghost before = out@;
    out.insert(j, x);
    proof {
        assert(before.insert(j as int, x) =~= before.subrange(0, j as int) + seq![x]
            + before.subrange(j as int, before.len() as int));
    }
}

/// Sorts rows by due time, stably.
pub fn sort_rows_by_due(v: &Vec<DueRow>) -> (out: Vec<DueRow>)
    ensures
        out@ == stable_sort_by_due(v@),
{
    let mut out: Vec<DueRow> = Vec::new();
    let mut k: usize = 0;
    proof {
        assert(v@.take(0) =~= Seq::<DueRow>::empty());
    }
    while k < v.len()
        invariant
            k <= v@.len(),
            out@ == stable_sort_by_due(v@.take(k as int)),
        decreases v@.len() - k,
    {
        sorted_insert(&mut out, v[k]);
        proof {
            assert(v@.take(k as int + 1).drop_last() =~= v@.take(k as int));
            assert(v@.take(k as int + 1).last() == v@[k as int]);
        }
        k = k + 1;
    }
    proof {
        assert(v@.take(v@.len() as int) =~= v@);
    }
    out
}

/// Whether a due time means "already due" at `now`.
pub open spec fn is_due_at(d: Option<i64>, now: int) -> bool {
    match d {
        Some(t) => t <= now,
        None => false,
    }
}

/// The rows of one source group, paired with their due times, in source
/// order.
pub open spec fn group_pairs(g: Seq<Question>, src: SourceKind) -> Seq<DueRow> {
    Seq::new(g.len(), |i: int| (RowRef { src, idx: i as usize }, spec_question_due(g[i])))
}

/// Whether a source group is included: it was selected and is non-empty.
pub open spec fn group_included(data: ErrorData, filter: Seq<SourceKind>, src: SourceKind) -> bool {
    filter.contains(src) && spec_group(data, src).len() > 0
}

/// Every candidate row with its due time: the included groups in the fixed
/// group order, each in source order.
pub open spec fn candidate_rows(data: ErrorData, filter: Seq<SourceKind>) -> Seq<DueRow> {
    (if group_included(data, filter, SourceKind::Simulation) {
        group_pairs(data.simulation@, SourceKind::Simulation)
    } else {
        Seq::empty()
    }) + (if group_included(data, filter, SourceKind::Real) {
        group_pairs(data.real@, SourceKind::Real)
    } else {
        Seq::empty()
    }) + (if group_included(data, filter, SourceKind::Famous) {
        group_pairs(data.famous@, SourceKind::Famous)
    } else {
        Seq::empty()
    })
}

/// The candidates, restricted to due rows when `due_only` is set.
pub open spec fn spec_filtered_rows(
    data: ErrorData,
    filter: Seq<SourceKind>,
    due_only: bool,
    now: int,
) -> Seq<DueRow> {
    let c = candidate_rows(data, filter);
    if due_only {
        c.filter(|p: DueRow| is_due_at(p.1, now))
    } else {
        c
    }
}

/// The first `limit` rows when a positive daily limit is set; everything
/// otherwise.
pub open spec fn spec_limited<A>(s: Seq<A>, limit: int) -> Seq<A> {
    if limit > 0 && s.len() > limit {
        s.take(limit)
    } else {
        s
    }
}

/// The derived work queue: filtered, stably sorted by due time, cut to the
/// daily limit, as row references.
pub open spec fn spec_build_rows(
    data: ErrorData,
    filter: Seq<SourceKind>,
    due_only: bool,
    now: int,
    limit: int,
) -> Seq<RowRef> {
    spec_limited(stable_sort_by_due(spec_filtered_rows(data, filter, due_only, now)), limit)
        .map_values(|p: DueRow| p.0)
}

fn contains_source(filter: &Vec<SourceKind>, k: SourceKind) -> (r: bool)
    ensures
        r == filter@.contains(k),
{
    let mut i: usize = 0;
    while i < filter.len()
        invariant
            i <= filter@.len(),
            forall|j: int| 0 <= j < i ==> filter@[j] != k,
        decreases filter@.len() - i,
    {
        if filter[i] == k {
            return true;
        }
        i = i + 1;
    }
    false
}

fn question_due(q: &Question) -> (d: Option<i64>)
    ensures
        d == spec_question_due(*q),
{
    match &q.exam {
        Some(e) => e.due,
        None => None,
    }
}

fn push_group_pairs(acc: &mut Vec<DueRow>, g: &Vec<Question>, src: SourceKind)
    ensures
        final(acc)@ == old(acc)@ + group_pairs(g@, src),
{
    let ghost base = acc@;
    let mut i: usize = 0;
    while i < g.len()
        invariant
            i <= g@.len(),
            acc@ == base + group_pairs(g@, src).take(i as int),
        decreases g@.len() - i,
    {
        let d = question_due(&g[i]);
        acc.push((RowRef { src, idx: i }, d));
        proof {
            assert(group_pairs(g@, src)[i as int] == (RowRef { src, idx: i }, d));
            assert((base + group_pairs(g@, src).take(i as int)).push(
                group_pairs(g@, src)[i as int],
            ) =~= base + group_pairs(g@, src).take(i as int + 1));
        }
        i = i + 1;
    }
    proof {
        assert(group_pairs(g@, src).take(g@.len() as int) =~= group_pairs(g@, src));
    }
}

/// Rebuilds the work queue from the store: include the selected non-empty
/// source groups, keep only due rows when asked, sort stably by due time
/// (undated rows last), and truncate to a positive daily limit. The result
/// is exactly `spec_build_rows`; deriving it twice from the same inputs
/// gives the same rows.
pub fn build_rows(
    data: &ErrorData,
    filter: &Vec<SourceKind>,
    due_only: bool,
    now: i64,
    daily_limit: usize,
) -> (rows: Vec<RowRef>)
    ensures
        rows@ == spec_build_rows(*data, filter@, due_only, now as int, daily_limit as int),
        forall|i: int| 0 <= i < rows@.len() ==> crate::data::row_valid(*data, #[trigger] rows@[i]),
{
    let mut cands: Vec<DueRow> = Vec::new();
    if contains_source(filter, SourceKind::Simulation) && data.simulation.len() > 0 {
        push_group_pairs(&mut cands, &data.simulation, SourceKind::Simulation);
    }
    let ghost after_sim = cands@;
    if contains_source(filter, SourceKind::Real) && data.real.len() > 0 {
        push_group_pairs(&mut cands, &data.real, SourceKind::Real);
    }
    let ghost after_real = cands@;
    if contains_source(filter, SourceKind::Famous) && data.famous.len() > 0 {
        push_group_pairs(&mut cands, &data.famous, SourceKind::Famous);
    }
    proof {
        assert(cands@ =~= candidate_rows(*data, filter@));
    }
    // keep only due rows when asked
    let mut kept: Vec<DueRow> = Vec::new();
    if due_only {
        let ghost pred = |p: DueRow| is_due_at(p.1, now as int);
        let mut i: usize = 0;
        proof {
            reveal(Seq::filter);
            assert(cands@.take(0) =~= Seq::<DueRow>::empty());
        }
        while i < cands.len()
            invariant
                i <= cands@.len(),
                pred == (|p: DueRow| is_due_at(p.1, now as int)),
                kept@ == cands@.take(i as int).filter(pred),
            decreases cands@.len() - i,
        {
            let p = cands[i];
            let keep = match p.1 {
                Some(t) => t <= now,
                None => false,
            };
            proof {
                reveal(Seq::filter);
                assert(cands@.take(i as int + 1).drop_last() =~= cands@.take(i as int));
                assert(cands@.take(i as int + 1).last() == p);
            }
            if keep {
                kept.push(p);
            }
            i = i + 1;
        }
        proof {
            assert(cands@.take(cands@.len() as int) =~= cands@);
        }
    } else {
        kept = cands;
    }
    assert(kept@ == spec_filtered_rows(*data, filter@, due_only, now as int));
    // stable sort by due time
    let sorted = sort_rows_by_due(&kept);
    // daily limit
    let mut limited = sorted;
    if daily_limit > 0 && limited.len() > daily_limit {
        limited.truncate(daily_limit);
    }
    proof {
        assert(limited@ == spec_limited(
            stable_sort_by_due(spec_filtered_rows(*data, filter@, due_only, now as int)),
            daily_limit as int,
        ));
    }
    // strip the due times
    let mut rows: Vec<RowRef> = Vec::new();
    let mut k: usize = 0;
    while k < limited.len()
        invariant
            k <= limited@.len(),
            rows@ == limited@.take(k as int).map_values(|p: DueRow| p.0),
        decreases limited@.len() - k,
    {
        rows.push(limited[k].0);
        proof {
            assert(limited@.take(k as int + 1).map_values(|p: DueRow| p.0) =~= limited@.take(
                k as int,
            ).map_values(|p: DueRow| p.0).push(limited@[k as int].0));
        }
        k = k + 1;
    }
    proof {
        assert(limited@.take(limited@.len() as int) =~= limited@);
        lemma_build_rows_valid(*data, filter@, due_only, now as int, daily_limit as int);
        assert forall|i: int| 0 <= i < rows@.len() implies crate::data::row_valid(
            *data,
            #[trigger] rows@[i],
        ) by {
            assert(rows@[i] == spec_build_rows(
                *data,
                filter@,
                due_only,
                now as int,
                daily_limit as int,
            )[i]);
        }
    }
    rows
}

/// Every row reference in every sequence the pipeline passes through stays
/// inside the store.
pub open spec fn rows_valid(data: ErrorData, s: Seq<DueRow>) -> bool {
    forall|i: int| 0 <= i < s.len() ==> (#[trigger] s[i]).0.idx < spec_group(data, s[i].0.src).len()
}

proof fn lemma_sort_insert_valid(data: ErrorData, s: Seq<DueRow>, x: DueRow)
    requires
        rows_valid(data, s),
        x.0.idx < spec_group(data, x.0.src).len(),
    ensures
        rows_valid(data, sort_insert(s, x)),
    decreases s.len(),
{
    if s.len() == 0 {
    } else if due_lt(x.1, s.last().1) {
        assert(rows_valid(data, s.drop_last())) by {
            assert(forall|i: int| 0 <= i < s.len() - 1 ==> s.drop_last()[i] == s[i]);
        }
        lemma_sort_insert_valid(data, s.drop_last(), x);
        assert(forall|i: int|
            0 <= i < sort_insert(s, x).len() ==> (#[trigger] sort_insert(s, x)[i]) == (if i
                < sort_insert(s.drop_last(), x).len() {
                sort_insert(s.drop_last(), x)[i]
            } else {
                s.last()
            }));
    } else {
    }
}

proof fn lemma_sort_valid(data: ErrorData, s: Seq<DueRow>)
    requires
        rows_valid(data, s),
    ensures
        rows_valid(data, stable_sort_by_due(s)),
    decreases s.len(),
{
    if s.len() > 0 {
        assert(rows_valid(data, s.drop_last())) by {
            assert(forall|i: int| 0 <= i < s.len() - 1 ==> s.drop_last()[i] == s[i]);
        }
        lemma_sort_valid(data, s.drop_last());
        lemma_sort_insert_valid(data, stable_sort_by_due(s.drop_last()), s.last());
    }
}

proof fn lemma_build_rows_valid(
    data: ErrorData,
    filter: Seq<SourceKind>,
    due_only: bool,
    now: int,
    limit: int,
)
    ensures
        forall|i: int|
            0 <= i < spec_build_rows(data, filter, due_only, now, limit).len()
                ==> crate::data::row_valid(
                data,
                #[trigger] spec_build_rows(data, filter, due_only, now, limit)[i],
            ),
{
    let c = candidate_rows(data, filter);
    assert(rows_valid(data, c));
    let f = spec_filtered_rows(data, filter, due_only, now);
    assert(rows_valid(data, f)) by {
        if due_only {
            let pred = |p: DueRow| is_due_at(p.1, now);
            assert forall|i: int| 0 <= i < f.len() implies (#[trigger] f[i]).0.idx < spec_group(
                data,
                f[i].0.src,
            ).len() by {
                c.lemma_filter_pred(pred, i);
                lemma_filter_subset(c, pred);
                assert(c.filter(pred).contains(f[i])) by {
                    assert(c.filter(pred)[i] == f[i]);
                }
                assert(c.contains(f[i]));
                let w = choose|k: int| 0 <= k < c.len() && c[k] == f[i];
                assert(c[w].0.idx < spec_group(data, c[w].0.src).len());
            }
        }
    }
    lemma_sort_valid(data, f);
    let t = stable_sort_by_due(f);
    let l = spec_limited(t, limit);
    assert(rows_valid(data, l)) by {
        assert(forall|i: int| 0 <= i < l.len() ==> l[i] == t[i]);
    }
    assert forall|i: int|
        0 <= i < spec_build_rows(data, filter, due_only, now, limit).len() implies crate::data::row_valid(
        data,
        #[trigger] spec_build_rows(data, filter, due_only, now, limit)[i],
    ) by {
        assert(spec_build_rows(data, filter, due_only, now, limit)[i] == l[i].0);
    }
}

/// Everything a filter keeps came from the input sequence.
proof fn lemma_filter_subset(s: Seq<DueRow>, pred: spec_fn(DueRow) -> bool)
    ensures
        forall|x: DueRow| #[trigger] s.filter(pred).contains(x) ==> s.contains(x),
    decreases s.len(),
{
    reveal(Seq::filter);
    if s.len() > 0 {
        lemma_filter_subset(s.drop_last(), pred);
        assert forall|x: DueRow| #[trigger] s.filter(pred).contains(x) implies s.contains(x) by {
            if s.drop_last().filter(pred).contains(x) {
                assert(s.drop_last().contains(x));
                let w = choose|k: int| 0 <= k < s.drop_last().len() && s.drop_last()[k] == x;
                assert(s[w] == x);
            } else {
                assert(pred(s.last()) && x == s.last());
                assert(s[s.len() - 1] == x);
            }
        }
    }
}

/// With rows whose dated due times strictly increase in source order, the
/// stable sort puts every dated row first, in that order, and every undated
/// row after them, in source order.
pub proof fn lemma_due_partition(s: Seq<DueRow>)
    requires
        forall|i: int, j: int|
            0 <= i < j < s.len() && (#[trigger] s[i]).1 is Some && (#[trigger] s[j]).1 is Some
                ==> due_lt(s[i].1, s[j].1),
    ensures
        stable_sort_by_due(s) == s.filter(|p: DueRow| p.1 is Some) + s.filter(
            |p: DueRow| !(p.1 is Some),
        ),
    decreases s.len(),
{
    reveal(Seq::filter);
    let has = |p: DueRow| p.1 is Some;
    let no = |p: DueRow| !(p.1 is Some);
    if s.len() == 0 {
        assert(stable_sort_by_due(s) =~= s.filter(has) + s.filter(no));
    } else {
        let s0 = s.drop_last();
        let x = s.last();
        assert(forall|i: int, j: int|
            0 <= i < j < s0.len() && (#[trigger] s0[i]).1 is Some && (#[trigger] s0[j]).1 is Some
                ==> due_lt(s0[i].1, s0[j].1)) by {
            assert(forall|i: int| 0 <= i < s0.len() ==> s0[i] == s[i]);
        }
        lemma_due_partition(s0);
        let d0 = s0.filter(has);
        let n0 = s0.filter(no);
        assert(stable_sort_by_due(s) == sort_insert(d0 + n0, x));
        assert forall|i: int| 0 <= i < n0.len() implies !((#[trigger] n0[i]).1 is Some) by {
            s0.lemma_filter_pred(no, i);
        }
        if x.1 is Some {
            // x is the latest dated row: it lands right after d0
            let j = d0.len() as int;
            assert forall|i: int| j <= i < (d0 + n0).len() implies due_lt(
                x.1,
                (#[trigger] (d0 + n0)[i]).1,
            ) by {
                assert((d0 + n0)[i] == n0[i - j]);
            }
            if j > 0 {
                assert(has(d0[j - 1])) by {
                    s0.lemma_filter_pred(has, j - 1);
                }
                lemma_filter_subset(s0, has);
                assert(s0.filter(has).contains(d0[j - 1])) by {
                    assert(s0.filter(has)[j - 1] == d0[j - 1]);
                }
                assert(s0.contains(d0[j - 1]));
                let w = choose|k: int| 0 <= k < s0.len() && s0[k] == d0[j - 1];
                assert(s[w] == d0[j - 1]);
                assert(due_lt(s[w].1, x.1));
                assert(!due_lt(x.1, d0[j - 1].1));
            }
            lemma_sort_insert_at(d0 + n0, x, j);
            assert(s.filter(has) == d0.push(x));
            assert(s.filter(no) == n0);
            assert((d0 + n0).subrange(0, j) =~= d0);
            assert((d0 + n0).subrange(j, (d0 + n0).len() as int) =~= n0);
            assert(d0 + seq![x] + n0 =~= d0.push(x) + n0);
        } else {
            let j = (d0 + n0).len() as int;
            lemma_sort_insert_at(d0 + n0, x, j);
            assert(s.filter(has) == d0);
            assert(s.filter(no) == n0.push(x));
            assert((d0 + n0).subrange(0, j) =~= d0 + n0);
            assert((d0 + n0).subrange(j, j) =~= Seq::<DueRow>::empty());
            assert((d0 + n0) + seq![x] + Seq::<DueRow>::empty() =~= d0 + n0.push(x));
        }
    }
}

/// A positive daily limit yields exactly `min(limit, n)` rows; a limit of
/// zero yields all of them.
pub proof fn lemma_daily_limit<A>(s: Seq<A>, limit: int)
    ensures
        limit > 0 ==> spec_limited(s, limit).len() == if s.len() < limit {
            s.len() as int
        } else {
            limit
        },
        limit == 0 ==> spec_limited(s, limit) == s,
        forall|i: int| 0 <= i < spec_limited(s, limit).len() ==> spec_limited(s, limit)[i] == s[i],
{
}

/// Deriving the queue is a pure function of the store and the settings: any
/// two derivations from the same inputs agree, so re-deriving after a grade
/// simply reflects the new due times.
pub proof fn lemma_rederivation_agrees(
    r1: Seq<RowRef>,
    r2: Seq<RowRef>,
    data: ErrorData,
    filter: Seq<SourceKind>,
    due_only: bool,
    now: int,
    limit: int,
)
    requires
        r1 == spec_build_rows(data, filter, due_only, now, limit),
        r2 == spec_build_rows(data, filter, due_only, now, limit),
    ensures
        r1 == r2,
{
}

} // verus!
