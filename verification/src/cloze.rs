//! The cloze markup engine. A blank is a span `{{id::text}}` or
//! `{{id::text::hint}}` where `id` is `c` followed by digits; neither text
//! nor hint may cross a line break, the shortest completion wins (so the
//! first `}}` closes the span), and at a given text split a hint is
//! preferred over closing. Scanning is left to right and non-overlapping;
//! malformed markup is simply not extracted.

use vstd::prelude::*;
use crate::strutil::{copy_range, chars_of_str, string_of_chars};

verus! {

/// One extracted blank: its id token (like `c1`), its literal answer text,
/// and its optional hint.
#[derive(Clone, Debug)]
pub struct Cloze {
    pub idx: String,
    pub text: String,
    pub hint: Option<String>,
}

/// An ASCII decimal digit.
pub open spec fn is_digit(c: char) -> bool {
    0x30 <= c as u32 && c as u32 <= 0x39
}

/// The first index at or after `k` holding a non-digit (or the end).
pub open spec fn digits_end(s: Seq<char>, k: int) -> int
    decreases s.len() - k when 0 <= k <= s.len()
{
    if k < s.len() && is_digit(s[k]) {
        digits_end(s, k + 1)
    } else {
        k
    }
}

pub proof fn lemma_digits_end_bounds(s: Seq<char>, k: int)
    requires
        0 <= k <= s.len(),
    ensures
        k <= digits_end(s, k) <= s.len(),
    decreases s.len() - k,
{
    if k < s.len() && is_digit(s[k]) {
        lemma_digits_end_bounds(s, k + 1);
    }
}

/// The position of the first `}}` at or after `j` that no line break
/// precedes: where a lazily matched span body ends.
pub open spec fn find_close(s: Seq<char>, j: int) -> Option<int>
    decreases s.len() - j when 0 <= j <= s.len()
{
    if j + 2 <= s.len() && s[j] == '}' && s[j + 1] == '}' {
        Some(j)
    } else if j < s.len() && s[j] != '\n' {
        find_close(s, j + 1)
    } else {
        None
    }
}

pub proof fn lemma_find_close_bounds(s: Seq<char>, j: int)
    requires
        0 <= j <= s.len(),
    ensures
        find_close(s, j) matches Some(k) ==> j <= k && k + 2 <= s.len(),
    decreases s.len() - j,
{
    if !(j + 2 <= s.len() && s[j] == '}' && s[j + 1] == '}') && j < s.len() && s[j] != '\n' {
        lemma_find_close_bounds(s, j + 1);
    }
}

/// Splits a span body starting at `t`: at each candidate end of the text, a
/// hint (`::` followed by lazily scanned text up to `}}`) is tried first,
/// then a plain close; otherwise the text grows by one character, never
/// across a line break. Returns (text end, hint span, match end).
pub open spec fn find_body(s: Seq<char>, t: int) -> Option<(int, Option<(int, int)>, int)>
    decreases s.len() - t when 0 <= t <= s.len()
{
    if t + 2 <= s.len() && s[t] == ':' && s[t + 1] == ':' && find_close(s, t + 2) is Some {
        let h = find_close(s, t + 2)->Some_0;
        Some((t, Some((t + 2, h)), h + 2))
    } else if t + 2 <= s.len() && s[t] == '}' && s[t + 1] == '}' {
        Some((t, None, t + 2))
    } else if t < s.len() && s[t] != '\n' {
        find_body(s, t + 1)
    } else {
        None
    }
}

pub proof fn lemma_find_body_bounds(s: Seq<char>, t: int)
    requires
        0 <= t <= s.len(),
    ensures
        find_body(s, t) matches Some((te, hint, end)) ==> {
            &&& t <= te
            &&& te + 2 <= end <= s.len()
            &&& (hint matches Some((hs, he)) ==> hs == te + 2 && hs <= he && he + 2 == end)
        },
    decreases s.len() - t,
{
    if t + 2 <= s.len() && s[t] == ':' && s[t + 1] == ':' && find_close(s, t + 2) is Some {
        lemma_find_close_bounds(s, t + 2);
    } else if t + 2 <= s.len() && s[t] == '}' && s[t + 1] == '}' {
    } else if t < s.len() && s[t] != '\n' {
        lemma_find_body_bounds(s, t + 1);
    }
}

/// A cloze match attempt at position `i`: `{{`, `c`, at least one digit, and
/// `::` must stand there, followed by a splittable body. Returns
/// (id end, text end, hint span, match end); the id is `s[i+2 .. id_end]`
/// and the text `s[id_end+2 .. text_end]`.
pub open spec fn match_at(s: Seq<char>, i: int) -> Option<(int, int, Option<(int, int)>, int)> {
    if 0 <= i && i + 3 <= s.len() && s[i] == '{' && s[i + 1] == '{' && s[i + 2] == 'c' {
        let dend = digits_end(s, i + 3);
        if dend > i + 3 && dend + 2 <= s.len() && s[dend] == ':' && s[dend + 1] == ':' {
            match find_body(s, dend + 2) {
                Some((te, hint, end)) => Some((dend, te, hint, end)),
                None => None,
            }
        } else {
            None
        }
    } else {
        None
    }
}

pub proof fn lemma_match_at_bounds(s: Seq<char>, i: int)
    requires
        0 <= i <= s.len(),
    ensures
        match_at(s, i) matches Some((dend, te, hint, end)) ==> {
            &&& i + 3 < dend + 2 <= te
            &&& te + 2 <= end <= s.len()
            &&& i < end
            &&& (hint matches Some((hs, he)) ==> hs == te + 2 && hs <= he && he + 2 == end)
        },
{
    if 0 <= i && i + 3 <= s.len() && s[i] == '{' && s[i + 1] == '{' && s[i + 2] == 'c' {
        lemma_digits_end_bounds(s, i + 3);
        let dend = digits_end(s, i + 3);
        if dend > i + 3 && dend + 2 <= s.len() && s[dend] == ':' && s[dend + 1] == ':' {
            lemma_find_body_bounds(s, dend + 2);
        }
    }
}

/// One matched span: (start, id end, text end, hint span, end).
pub type ClozeSpan = (int, int, int, Option<(int, int)>, int);

/// Every cloze span of `s` from position `i` on, leftmost first and
/// non-overlapping: scanning resumes right after each match.
pub open spec fn scan_from(s: Seq<char>, i: int) -> Seq<ClozeSpan>
    decreases s.len() - i when 0 <= i <= s.len()
    via scan_from_dec
{
    if i >= s.len() {
        Seq::empty()
    } else {
        match match_at(s, i) {
            Some((dend, te, hint, end)) => seq![(i, dend, te, hint, end)] + scan_from(s, end),
            None => scan_from(s, i + 1),
        }
    }
}

#[via_fn]
proof fn scan_from_dec(s: Seq<char>, i: int) {
    lemma_match_at_bounds(s, i);
}

/// The id, text and optional hint of one span, as character sequences.
pub open spec fn span_fields(s: Seq<char>, sp: ClozeSpan) -> (Seq<char>, Seq<char>, Option<
    Seq<char>,
>) {
    (
        s.subrange(sp.0 + 2, sp.1),
        s.subrange(sp.1 + 2, sp.2),
        match sp.3 {
            Some((hs, he)) => Some(s.subrange(hs, he)),
            None => None,
        },
    )
}

/// Every cloze of `s`, in appearance order, with duplicates kept.
pub open spec fn spec_clozes(s: Seq<char>) -> Seq<(Seq<char>, Seq<char>, Option<Seq<char>>)> {
    scan_from(s, 0).map_values(|sp: ClozeSpan| span_fields(s, sp))
}

/// The view of one extracted `Cloze`.
pub open spec fn cloze_view(c: Cloze) -> (Seq<char>, Seq<char>, Option<Seq<char>>) {
    (
        c.idx@,
        c.text@,
        match c.hint {
            Some(h) => Some(h@),
            None => None,
        },
    )
}

/// What masking renders in place of a hidden blank.
pub open spec fn placeholder_chars() -> Seq<char> {
    seq!['[', '\u{b7}', '\u{b7}', '\u{b7}', ']']
}

/// The masked rendering of `s` from position `i` on: every span shows its
/// literal text, except the target span, which shows the placeholder while
/// hidden; everything outside spans is copied through.
pub open spec fn mask_from(s: Seq<char>, i: int, target: Seq<char>, revealed: bool) -> Seq<char>
    decreases s.len() - i when 0 <= i <= s.len()
    via mask_from_dec
{
    if i >= s.len() {
        Seq::empty()
    } else {
        match match_at(s, i) {
            Some((dend, te, hint, end)) => {
                let id = s.subrange(i + 2, dend);
                let text = s.subrange(dend + 2, te);
                (if id == target && !revealed {
                    placeholder_chars()
                } else {
                    text
                }) + mask_from(s, end, target, revealed)
            },
            None => seq![s[i]] + mask_from(s, i + 1, target, revealed),
        }
    }
}

#[via_fn]
proof fn mask_from_dec(s: Seq<char>, i: int, target: Seq<char>, revealed: bool) {
    lemma_match_at_bounds(s, i);
}

/// Tries to match a cloze span at `i`, exactly as `match_at` describes.
fn try_match(v: &Vec<char>, i: usize) -> (r: Option<(usize, usize, Option<(usize, usize)>, usize)>)
    requires
        i <= v@.len(),
    ensures
        match r {
            Some((dend, te, hint, end)) => {
                &&& match_at(v@, i as int) == Some(
                    (
                        dend as int,
                        te as int,
                        match hint {
                            Some((hs, he)) => Some((hs as int, he as int)),
                            None => None,
                        },
                        end as int,
                    ),
                )
                &&& i < end <= v@.len()
                &&& i + 2 <= dend <= v@.len()
                &&& dend + 2 <= te <= v@.len()
                &&& (hint matches Some((hs, he)) ==> hs <= he <= v@.len())
            },
            None => match_at(v@, i as int) is None,
        },
{
    proof {
        lemma_match_at_bounds(v@, i as int);
    }
    let n = v.len();
    if i >= n || n - i < 3 {
        return None;
    }
    if !(v[i] == '{' && v[i + 1] == '{' && v[i + 2] == 'c') {
        return None;
    }
    // maximal digit run from i+3
    let mut dend: usize = i + 3;
    while dend < n && 0x30 <= v[dend] as u32 && v[dend] as u32 <= 0x39
        invariant
            i + 3 <= dend <= n,
            n == v@.len(),
            digits_end(v@, i as int + 3) == digits_end(v@, dend as int),
        decreases n - dend,
    {
        dend = dend + 1;
    }
    assert(digits_end(v@, i as int + 3) == dend as int);
    if !(dend > i + 3 && n - dend >= 2 && v[dend] == ':' && v[dend + 1] == ':') {
        return None;
    }
    // body scan from dend + 2
    let mut t: usize = dend + 2;
    loop
        invariant
            dend + 2 <= t <= n,
            n == v@.len(),
            i + 3 < dend as int + 2 <= t,
            find_body(v@, dend as int + 2) == find_body(v@, t as int),
            match_at(v@, i as int) == (match find_body(v@, dend as int + 2) {
                Some((te, hint, end)) => Some((dend as int, te, hint, end)),
                None => None,
            }),
        decreases n - t,
    {
        let two_left = n - t >= 2;
        if two_left && v[t] == ':' && v[t + 1] == ':' {
            // try a hint: scan for the lazily nearest close
            let mut h: usize = t + 2;
            loop
                invariant
                    t + 2 <= h <= n,
                    n == v@.len(),
                    i + 3 < dend as int + 2 <= t as int,
                    v@[t as int] == ':',
                    v@[t as int + 1] == ':',
                    find_body(v@, dend as int + 2) == find_body(v@, t as int),
                    match_at(v@, i as int) == (match find_body(v@, dend as int + 2) {
                        Some((te, hint, end)) => Some((dend as int, te, hint, end)),
                        None => None,
                    }),
                    find_close(v@, t as int + 2) == find_close(v@, h as int),
                ensures
                    find_close(v@, t as int + 2) is None,
                decreases n - h,
            {
                if n - h >= 2 && v[h] == '}' && v[h + 1] == '}' {
                    proof {
                        assert(find_close(v@, h as int) == Some(h as int));
                        assert(find_body(v@, t as int) == Some(
                            (t as int, Some((t as int + 2, h as int)), h as int + 2),
                        ));
                    }
                    return Some((dend, t, Some((t + 2, h)), h + 2));
                }
                if h < n && v[h] != '\n' {
                    h = h + 1;
                } else {
                    proof {
                        assert(find_close(v@, h as int) is None);
                    }
                    break ;
                }
            }
        }
        // the hint attempt, if any, failed: find_close(v@, t + 2) is None here
        if two_left && v[t] == '}' && v[t + 1] == '}' {
            proof {
                assert(find_body(v@, t as int) == Some((t as int, None::<(int, int)>, t as int + 2)));
            }
            return Some((dend, t, None, t + 2));
        }
        if t < n && v[t] != '\n' {
            proof {
                assert(find_body(v@, t as int) == find_body(v@, t as int + 1));
            }
            t = t + 1;
        } else {
            proof {
                assert(find_body(v@, t as int) is None);
            }
            return None;
        }
    }
}

/// Extracts every cloze span of the text, in appearance order, duplicates
/// included, exactly as `spec_clozes` lists them.
pub fn parse_clozes(content: &str) -> (res: Vec<Cloze>)
    ensures
        res@.map_values(|c: Cloze| cloze_view(c)) == spec_clozes(content@),
{
    let v = chars_of_str(content);
    let mut res: Vec<Cloze> = Vec::new();
    let mut i: usize = 0;
    proof {
        assert(res@.map_values(|c: Cloze| cloze_view(c)) =~= Seq::<
            (Seq<char>, Seq<char>, Option<Seq<char>>),
        >::empty());
    }
    loop
        invariant
            i <= v@.len(),
            v@ == content@,
            spec_clozes(content@) =~= res@.map_values(|c: Cloze| cloze_view(c)) + scan_from(
                v@,
                i as int,
            ).map_values(|sp: ClozeSpan| span_fields(v@, sp)),
        ensures
            spec_clozes(content@) == res@.map_values(|c: Cloze| cloze_view(c)),
        decreases v@.len() - i,
    {
        if i >= v.len() {
            assert(scan_from(v@, i as int) =~= Seq::<ClozeSpan>::empty());
            assert(scan_from(v@, i as int).map_values(|sp: ClozeSpan| span_fields(v@, sp)) =~= Seq::<
                (Seq<char>, Seq<char>, Option<Seq<char>>),
            >::empty());
            assert(spec_clozes(content@) =~= res@.map_values(|c: Cloze| cloze_view(c)));
            break ;
        }
        let ghost res_old = res@;
        match try_match(&v, i) {
            Some((dend, te, hint, end)) => {
                let idx_chars = copy_range(&v, i + 2, dend);
                let text_chars = copy_range(&v, dend + 2, te);
                let idx = string_of_chars(&idx_chars);
                let text = string_of_chars(&text_chars);
                let hint_s: Option<String> = match hint {
                    Some((hs, he)) => {
                        let hc = copy_range(&v, hs, he);
                        Some(string_of_chars(&hc))
                    },
                    None => None,
                };
                let c = Cloze { idx, text, hint: hint_s };
                res.push(c);
                proof {
                    let ghost sp: ClozeSpan = (
                        i as int,
                        dend as int,
                        te as int,
                        match hint {
                            Some((hs, he)) => Some((hs as int, he as int)),
                            None => None,
                        },
                        end as int,
                    );
                    assert(scan_from(v@, i as int) == seq![sp] + scan_from(v@, end as int));
                    assert(res@.map_values(|c: Cloze| cloze_view(c)) =~= res_old.map_values(
                        |c: Cloze| cloze_view(c),
                    ).push(cloze_view(res@.last())));
                    assert(cloze_view(res@.last()) == span_fields(v@, sp));
                    assert((seq![sp] + scan_from(v@, end as int)).map_values(
                        |sp: ClozeSpan| span_fields(v@, sp),
                    ) =~= seq![span_fields(v@, sp)] + scan_from(v@, end as int).map_values(
                        |sp: ClozeSpan| span_fields(v@, sp),
                    ));
                    assert(spec_clozes(content@) =~= res@.map_values(|c: Cloze| cloze_view(c))
                        + scan_from(v@, end as int).map_values(|sp: ClozeSpan| span_fields(v@, sp)));
                }
                i = end;
            },
            None => {
                proof {
                    assert(scan_from(v@, i as int) == scan_from(v@, i as int + 1));
                }
                i = i + 1;
            },
        }
    }
    res
}

fn chars_eq(a: &Vec<char>, b: &Vec<char>) -> (r: bool)
    ensures
        r == (a@ == b@),
{
    if a.len() != b.len() {
        return false;
    }
    let mut i: usize = 0;
    while i < a.len()
        invariant
            i <= a@.len(),
            a@.len() == b@.len(),
            forall|j: int| 0 <= j < i ==> a@[j] == b@[j],
        decreases a@.len() - i,
    {
        if a[i] != b[i] {
            return false;
        }
        i = i + 1;
    }
    proof {
        assert(a@ =~= b@);
    }
    true
}

/// Renders the text with the target blank masked or revealed: the target
/// span shows a placeholder while hidden and its literal text once revealed;
/// every other span always shows its literal text; everything outside spans
/// is copied through.
pub fn mask_cloze(content: &str, target_idx: &str, revealed: bool) -> (r: String)
    ensures
        r@ == mask_from(content@, 0, target_idx@, revealed),
{
    let v = chars_of_str(content);
    let tgt = chars_of_str(target_idx);
    let mut out: Vec<char> = Vec::new();
    let mut i: usize = 0;
    loop
        invariant
            i <= v@.len(),
            v@ == content@,
            tgt@ == target_idx@,
            mask_from(content@, 0, target_idx@, revealed) =~= out@ + mask_from(
                v@,
                i as int,
                tgt@,
                revealed,
            ),
        ensures
            mask_from(content@, 0, target_idx@, revealed) == out@,
        decreases v@.len() - i,
    {
        if i >= v.len() {
            assert(mask_from(v@, i as int, tgt@, revealed) =~= Seq::<char>::empty());
            assert(mask_from(content@, 0, target_idx@, revealed) =~= out@ + Seq::<char>::empty());
            break ;
        }
        let ghost out_old = out@;
        match try_match(&v, i) {
            Some((dend, te, hint, end)) => {
                let idx_chars = copy_range(&v, i + 2, dend);
                let hidden = !revealed && chars_eq(&idx_chars, &tgt);
                if hidden {
                    out.push('[');
                    out.push('\u{b7}');
                    out.push('\u{b7}');
                    out.push('\u{b7}');
                    out.push(']');
                    proof {
                        assert(out@ =~= out_old + placeholder_chars());
                    }
                } else {
                    let mut k: usize = dend + 2;
                    while k < te
                        invariant
                            dend + 2 <= k <= te <= v@.len(),
                            out@ == out_old + v@.subrange(dend as int + 2, k as int),
                        decreases te - k,
                    {
                        out.push(v[k]);
                        proof {
                            assert(out_old + v@.subrange(dend as int + 2, k as int + 1) =~= (out_old
                                + v@.subrange(dend as int + 2, k as int)).push(v@[k as int]));
                        }
                        k = k + 1;
                    }
                }
                proof {
                    assert(mask_from(v@, i as int, tgt@, revealed) == (if v@.subrange(
                        i as int + 2,
                        dend as int,
                    ) == tgt@ && !revealed {
                        placeholder_chars()
                    } else {
                        v@.subrange(dend as int + 2, te as int)
                    }) + mask_from(v@, end as int, tgt@, revealed));
                    assert(mask_from(content@, 0, target_idx@, revealed) =~= out@ + mask_from(
                        v@,
                        end as int,
                        tgt@,
                        revealed,
                    ));
                }
                i = end;
            },
            None => {
                out.push(v[i]);
                proof {
                    assert(mask_from(v@, i as int, tgt@, revealed) == seq![v@[i as int]]
                        + mask_from(v@, i as int + 1, tgt@, revealed));
                    assert(out@ =~= out_old + seq![v@[i as int]]);
                    assert(mask_from(content@, 0, target_idx@, revealed) =~= out@ + mask_from(
                        v@,
                        i as int + 1,
                        tgt@,
                        revealed,
                    ));
                }
                i = i + 1;
            },
        }
    }
    string_of_chars(&out)
}

} // verus!
