//! Character and string helpers the rest of the library builds on: Unicode
//! whitespace trimming, line splitting, substring search, lexicographic
//! comparison, decimal formatting, and the two trusted string primitives
//! (appending one char, and Unicode lowercasing).

use vstd::prelude::*;

verus! {

/// The characters with the Unicode `White_Space` property, the set that
/// `char::is_whitespace` documents.
pub open spec fn is_space_char(c: char) -> bool {
    ||| c as u32 == 0x20
    ||| (0x09 <= c as u32 && c as u32 <= 0x0d)
    ||| c as u32 == 0x85
    ||| c as u32 == 0xa0
    ||| c as u32 == 0x1680
    ||| (0x2000 <= c as u32 && c as u32 <= 0x200a)
    ||| c as u32 == 0x2028
    ||| c as u32 == 0x2029
    ||| c as u32 == 0x202f
    ||| c as u32 == 0x205f
    ||| c as u32 == 0x3000
}

/// Whether `c` is Unicode whitespace.
pub fn is_space(c: char) -> (r: bool)
    ensures
        r == is_space_char(c),
{
    let u = c as u32;
    u == 0x20 || (0x09 <= u && u <= 0x0d) || u == 0x85 || u == 0xa0 || u == 0x1680 || (0x2000 <= u
        && u <= 0x200a) || u == 0x2028 || u == 0x2029 || u == 0x202f || u == 0x205f || u == 0x3000
}

/// `s` with leading whitespace removed.
pub open spec fn trim_front_of(s: Seq<char>) -> Seq<char>
    decreases s.len(),
{
    if s.len() > 0 && is_space_char(s[0]) {
        trim_front_of(s.drop_first())
    } else {
        s
    }
}

/// `s` with trailing whitespace removed.
pub open spec fn trim_back_of(s: Seq<char>) -> Seq<char>
    decreases s.len(),
{
    if s.len() > 0 && is_space_char(s.last()) {
        trim_back_of(s.drop_last())
    } else {
        s
    }
}

/// `s` with whitespace removed from both ends, as `str::trim` leaves it.
pub open spec fn trim_of(s: Seq<char>) -> Seq<char> {
    trim_back_of(trim_front_of(s))
}

/// Trims whitespace from both ends of a character buffer.
pub fn trim_chars(v: &Vec<char>) -> (r: Vec<char>)
    ensures
        r@ == trim_of(v@),
{
    let mut a: usize = 0;
    proof {
        assert(v@.skip(0) =~= v@);
    }
    while a < v.len() && is_space(v[a])
        invariant
            a <= v@.len(),
            trim_front_of(v@) == trim_front_of(v@.skip(a as int)),
        decreases v@.len() - a,
    {
        assert(v@.skip(a as int).drop_first() =~= v@.skip(a as int + 1));
        a = a + 1;
    }
    assert(trim_front_of(v@) == v@.skip(a as int)) by {
        if a < v@.len() {
            assert(!is_space_char(v@.skip(a as int)[0]));
        }
        assert(v@.skip(a as int).len() == 0 ==> v@.skip(a as int) =~= Seq::<char>::empty());
    }
    let mut b: usize = v.len();
    while b > a && is_space(v[b - 1])
        invariant
            a <= b <= v@.len(),
            trim_front_of(v@) == v@.skip(a as int),
            trim_back_of(v@.skip(a as int)) == trim_back_of(v@.subrange(a as int, b as int)),
        decreases b,
    {
        assert(v@.subrange(a as int, b as int).drop_last() =~= v@.subrange(a as int, b as int - 1));
        assert(v@.subrange(a as int, b as int).last() == v@[b - 1]);
        b = b - 1;
    }
    assert(trim_of(v@) == v@.subrange(a as int, b as int)) by {
        if b > a {
            assert(v@.subrange(a as int, b as int).last() == v@[b - 1]);
        }
        assert(v@.subrange(a as int, b as int).len() == 0 ==> v@.subrange(a as int, b as int)
            =~= Seq::<char>::empty());
    }
    let mut r: Vec<char> = Vec::new();
    let mut i: usize = a;
    while i < b
        invariant
            a <= i <= b <= v@.len(),
            r@ == v@.subrange(a as int, i as int),
        decreases b - i,
    {
        r.push(v[i]);
        assert(v@.subrange(a as int, i as int).push(v@[i as int]) =~= v@.subrange(
            a as int,
            i as int + 1,
        ));
        i = i + 1;
    }
    r
}

/// The index of the first `'\n'` at or after `from`, if any.
pub open spec fn find_newline(s: Seq<char>, from: int) -> Option<int>
    decreases s.len() - from when 0 <= from <= s.len()
{
    if from >= s.len() {
        None
    } else if s[from] == '\n' {
        Some(from)
    } else {
        find_newline(s, from + 1)
    }
}

/// One line as `str::lines` yields it: a trailing carriage return that stood
/// before the line feed is stripped.
pub open spec fn strip_cr(s: Seq<char>) -> Seq<char> {
    if s.len() > 0 && s.last() == '\r' {
        s.drop_last()
    } else {
        s
    }
}

pub proof fn lemma_find_newline_bounds(s: Seq<char>, from: int)
    requires
        0 <= from <= s.len(),
    ensures
        find_newline(s, from) matches Some(i) ==> from <= i < s.len() && s[i] == '\n' && (forall|
            j: int,
        | from <= j < i ==> s[j] != '\n'),
        find_newline(s, from) is None ==> forall|j: int| from <= j < s.len() ==> s[j] != '\n',
    decreases s.len() - from,
{
    if from < s.len() && s[from] != '\n' {
        lemma_find_newline_bounds(s, from + 1);
    }
}

/// The first line of `s`, as `str::lines` would yield it; an empty text has
/// an empty first line.
pub open spec fn first_line_of(s: Seq<char>) -> Seq<char> {
    match find_newline(s, 0) {
        Some(i) => strip_cr(s.take(i)),
        None => s,
    }
}

/// The first line of `s` whose trimmed form is non-empty, trimmed, walking
/// the lines in order.
pub open spec fn first_nonblank_line_of(s: Seq<char>) -> Option<Seq<char>>
    decreases s.len(),
    via first_nonblank_line_of_decreases
{
    if s.len() == 0 {
        None
    } else {
        match find_newline(s, 0) {
            Some(i) => {
                let t = trim_of(strip_cr(s.take(i)));
                if t.len() > 0 {
                    Some(t)
                } else {
                    first_nonblank_line_of(s.skip(i + 1))
                }
            },
            None => {
                let t = trim_of(s);
                if t.len() > 0 {
                    Some(t)
                } else {
                    None
                }
            },
        }
    }
}

#[via_fn]
proof fn first_nonblank_line_of_decreases(s: Seq<char>) {
    lemma_find_newline_bounds(s, 0);
}

/// Copies `v[from..to]` into a fresh buffer.
pub fn copy_range(v: &Vec<char>, from: usize, to: usize) -> (r: Vec<char>)
    requires
        from <= to <= v@.len(),
    ensures
        r@ == v@.subrange(from as int, to as int),
{
    let mut r: Vec<char> = Vec::new();
    let mut i: usize = from;
    while i < to
        invariant
            from <= i <= to <= v@.len(),
            r@ == v@.subrange(from as int, i as int),
        decreases to - i,
    {
        r.push(v[i]);
        assert(v@.subrange(from as int, i as int).push(v@[i as int]) =~= v@.subrange(
            from as int,
            i as int + 1,
        ));
        i = i + 1;
    }
    r
}

/// Finds the first `'\n'` at or after `from`.
pub fn find_newline_at(v: &Vec<char>, from: usize) -> (r: Option<usize>)
    requires
        from <= v@.len(),
    ensures
        match r {
            Some(k) => from <= k < v@.len() && find_newline(v@, from as int) == Some(k as int),
            None => find_newline(v@, from as int) is None,
        },
{
    let mut k: usize = from;
    while k < v.len()
        invariant
            from <= k <= v@.len(),
            find_newline(v@, from as int) == find_newline(v@, k as int),
        decreases v@.len() - k,
    {
        if v[k] == '\n' {
            return Some(k);
        }
        k = k + 1;
    }
    None
}

/// The first line of a character buffer.
pub fn first_line_chars(v: &Vec<char>) -> (r: Vec<char>)
    ensures
        r@ == first_line_of(v@),
{
    proof {
        lemma_find_newline_bounds(v@, 0);
    }
    match find_newline_at(v, 0) {
        Some(k) => {
            let end: usize = if k > 0 && v[k - 1] == '\r' {
                k - 1
            } else {
                k
            };
            let r = copy_range(v, 0, end);
            proof {
                if k > 0 {
                    assert(v@.take(k as int).last() == v@[k as int - 1]);
                    assert(v@.take(k as int).drop_last() =~= v@.subrange(0, k as int - 1));
                }
                assert(v@.take(k as int) =~= v@.subrange(0, k as int));
                assert(r@ =~= strip_cr(v@.take(k as int)));
            }
            r
        },
        None => {
            let r = copy_range(v, 0, v.len());
            proof {
                assert(r@ =~= v@);
            }
            r
        },
    }
}

/// The first non-blank line of a character buffer, trimmed.
pub fn first_nonblank_trimmed(v: &Vec<char>) -> (r: Option<Vec<char>>)
    ensures
        match r {
            Some(t) => first_nonblank_line_of(v@) == Some(t@),
            None => first_nonblank_line_of(v@) is None,
        },
{
    let mut j: usize = 0;
    proof {
        assert(v@.skip(0) =~= v@);
    }
    loop
        invariant
            j <= v@.len(),
            first_nonblank_line_of(v@) == first_nonblank_line_of(v@.skip(j as int)),
        decreases v@.len() - j,
    {
        let ghost rest = v@.skip(j as int);
        if j >= v.len() {
            assert(rest =~= Seq::<char>::empty());
            return None;
        }
        proof {
            lemma_find_newline_bounds(rest, 0);
        }
        // scan for the newline ending this line, expressed over `rest`
        let mut k: usize = j;
        let mut found = false;
        while k < v.len() && !found
            invariant
                j <= k <= v@.len(),
                rest == v@.skip(j as int),
                found ==> k < v@.len() && v@[k as int] == '\n',
                find_newline(rest, 0) == if found {
                    Some(k - j)
                } else {
                    find_newline(rest, (k - j) as int)
                },
            decreases v@.len() - k, (if found { 0int } else { 1int }),
        {
            assert(rest[(k - j) as int] == v@[k as int]);
            if v[k] == '\n' {
                found = true;
            } else {
                k = k + 1;
            }
        }
        if found {
            let end: usize = if k > j && v[k - 1] == '\r' {
                k - 1
            } else {
                k
            };
            let seg = copy_range(v, j, end);
            proof {
                assert(rest.take((k - j) as int) =~= v@.subrange(j as int, k as int));
                if k > j {
                    assert(rest.take((k - j) as int).last() == v@[k as int - 1]);
                    if v@[k as int - 1] == '\r' {
                        assert(rest.take((k - j) as int).drop_last() =~= v@.subrange(
                            j as int,
                            end as int,
                        ));
                    }
                }
                assert(seg@ =~= strip_cr(rest.take((k - j) as int)));
            }
            let t = trim_chars(&seg);
            if t.len() > 0 {
                return Some(t);
            }
            proof {
                assert(rest.skip((k - j) as int + 1) =~= v@.skip(k as int + 1));
            }
            j = k + 1;
        } else {
            // no further newline: the remainder is the last line
            let seg = copy_range(v, j, v.len());
            assert(seg@ =~= rest);
            let t = trim_chars(&seg);
            if t.len() > 0 {
                return Some(t);
            }
            return None;
        }
    }
}

/// Whether `n` occurs as a contiguous run inside `h`.
pub open spec fn contains_seq(h: Seq<char>, n: Seq<char>) -> bool {
    exists|i: int| 0 <= i && i + n.len() <= h.len() && #[trigger] h.subrange(i, i + n.len()) == n
}

/// Substring search, as `str::contains` decides it.
pub fn contains_chars(h: &Vec<char>, n: &Vec<char>) -> (r: bool)
    ensures
        r == contains_seq(h@, n@),
{
    let hl: usize = h.len();
    let nl: usize = n.len();
    if nl == 0 {
        assert(h@.subrange(0, 0 + n@.len() as int) =~= n@);
        return true;
    }
    if nl > hl {
        assert(!contains_seq(h@, n@));
        return false;
    }
    let bound: usize = hl - nl;
    let mut i: usize = 0;
    loop
        invariant
            i <= bound + 1,
            hl == h@.len(),
            nl == n@.len(),
            bound == hl - nl,
            1 <= nl <= hl,
            forall|p: int| 0 <= p < i ==> #[trigger] h@.subrange(p, p + n@.len()) != n@,
        decreases bound + 1 - i,
    {
        if i > bound {
            assert(!contains_seq(h@, n@));
            return false;
        }
        let mut k: usize = 0;
        let mut ok: bool = true;
        while k < nl && ok
            invariant
                k <= nl,
                nl == n@.len(),
                hl == h@.len(),
                i + nl <= hl,
                ok ==> forall|q: int| 0 <= q < k ==> h@[i + q] == n@[q],
                !ok ==> h@.subrange(i as int, i + n@.len()) != n@,
            decreases nl - k, (if ok { 1int } else { 0int }),
        {
            if h[i + k] != n[k] {
                assert(h@.subrange(i as int, i + n@.len())[k as int] != n@[k as int]);
                ok = false;
            } else {
                k = k + 1;
            }
        }
        if ok {
            assert(h@.subrange(i as int, i + n@.len()) =~= n@);
            assert(contains_seq(h@, n@));
            return true;
        }
        i = i + 1;
    }
}

/// Strict lexicographic order on character sequences, by code point; the
/// order `str` comparison gives.
pub open spec fn lex_lt(a: Seq<char>, b: Seq<char>) -> bool
    decreases a.len(),
{
    if b.len() == 0 {
        false
    } else if a.len() == 0 {
        true
    } else if (a[0] as u32) < (b[0] as u32) {
        true
    } else if (a[0] as u32) > (b[0] as u32) {
        false
    } else {
        lex_lt(a.drop_first(), b.drop_first())
    }
}

/// Compares two character buffers lexicographically.
pub fn lex_lt_chars(a: &Vec<char>, b: &Vec<char>) -> (r: bool)
    ensures
        r == lex_lt(a@, b@),
{
    let mut i: usize = 0;
    proof {
        assert(a@.skip(0) =~= a@);
        assert(b@.skip(0) =~= b@);
    }
    loop
        invariant
            i <= a@.len(),
            i <= b@.len(),
            lex_lt(a@, b@) == lex_lt(a@.skip(i as int), b@.skip(i as int)),
        decreases a@.len() - i,
    {
        if i >= b.len() {
            assert(b@.skip(i as int).len() == 0);
            return false;
        }
        if i >= a.len() {
            assert(a@.skip(i as int).len() == 0);
            return true;
        }
        let ca = a[i] as u32;
        let cb = b[i] as u32;
        if ca < cb {
            return true;
        }
        if ca > cb {
            return false;
        }
        proof {
            assert(a@.skip(i as int).drop_first() =~= a@.skip(i as int + 1));
            assert(b@.skip(i as int).drop_first() =~= b@.skip(i as int + 1));
        }
        i = i + 1;
    }
}

/// Whether two string slices hold the same characters.
pub fn str_eq(a: &str, b: &str) -> (r: bool)
    ensures
        r == (a@ == b@),
{
    let na = a.unicode_len();
    let nb = b.unicode_len();
    if na != nb {
        return false;
    }
    let mut i: usize = 0;
    while i < na
        invariant
            i <= na,
            na == a@.len(),
            na == b@.len(),
            forall|j: int| 0 <= j < i ==> a@[j] == b@[j],
        decreases na - i,
    {
        if a.get_char(i) != b.get_char(i) {
            return false;
        }
        i = i + 1;
    }
    proof {
        assert(a@ =~= b@);
    }
    true
}

/// The characters of a string slice, as a buffer.
pub fn chars_of_str(s: &str) -> (v: Vec<char>)
    ensures
        v@ == s@,
{
    let n = s.unicode_len();
    let mut v: Vec<char> = Vec::new();
    let mut i: usize = 0;
    while i < n
        invariant
            i <= n,
            n == s@.len(),
            v@ == s@.take(i as int),
        decreases n - i,
    {
        v.push(s.get_char(i));
        assert(s@.take(i as int).push(s@[i as int]) =~= s@.take(i as int + 1));
        i = i + 1;
    }
    proof {
        assert(s@.take(n as int) =~= s@);
    }
    v
}

/// Relies on `String::push`: appends exactly one character at the end.
#[verifier::external_body]
fn push_char(s: &mut String, c: char)
    ensures
        final(s)@ == old(s)@.push(c),
{
    s.push(c);
}

/// A `String` holding exactly the characters of `v`.
pub fn string_of_chars(v: &Vec<char>) -> (s: String)
    ensures
        s@ == v@,
{
    let mut s = String::new();
    let mut i: usize = 0;
    while i < v.len()
        invariant
            i <= v@.len(),
            s@ == v@.take(i as int),
        decreases v@.len() - i,
    {
        push_char(&mut s, v[i]);
        assert(v@.take(i as int).push(v@[i as int]) =~= v@.take(i as int + 1));
        i = i + 1;
    }
    proof {
        assert(v@.take(v@.len() as int) =~= v@);
    }
    s
}

/// What `str::to_lowercase` returns for a given character sequence. The
/// Unicode lowercase mapping is a fixed function of the characters alone; it
/// is named here rather than spelled out.
pub uninterp spec fn lower_of(s: Seq<char>) -> Seq<char>;

/// Relies on `str::to_lowercase`: the Unicode-lowercased text, a function of
/// the input characters alone.
#[verifier::external_body]
pub(crate) fn lowercase(s: &str) -> (r: String)
    ensures
        r@ == lower_of(s@),
{
    s.to_lowercase()
}

/// The decimal digit character for `n` in 0..=9.
pub open spec fn dec_digit(n: int) -> char {
    if n == 0 {
        '0'
    } else if n == 1 {
        '1'
    } else if n == 2 {
        '2'
    } else if n == 3 {
        '3'
    } else if n == 4 {
        '4'
    } else if n == 5 {
        '5'
    } else if n == 6 {
        '6'
    } else if n == 7 {
        '7'
    } else if n == 8 {
        '8'
    } else {
        '9'
    }
}

/// The decimal digits of `n`, most significant first, with no leading zeros
/// (zero itself is the single digit `'0'`).
pub open spec fn dec_of_nat(n: nat) -> Seq<char>
    decreases n,
{
    if n < 10 {
        seq![dec_digit(n as int)]
    } else {
        dec_of_nat(n / 10).push(dec_digit((n % 10) as int))
    }
}

/// The decimal rendering of a possibly negative integer.
pub open spec fn dec_of_int(v: int) -> Seq<char> {
    if v < 0 {
        seq!['-'] + dec_of_nat((-v) as nat)
    } else {
        dec_of_nat(v as nat)
    }
}

fn dec_digit_char(n: u64) -> (c: char)
    requires
        n < 10,
    ensures
        c == dec_digit(n as int),
{
    if n == 0 {
        '0'
    } else if n == 1 {
        '1'
    } else if n == 2 {
        '2'
    } else if n == 3 {
        '3'
    } else if n == 4 {
        '4'
    } else if n == 5 {
        '5'
    } else if n == 6 {
        '6'
    } else if n == 7 {
        '7'
    } else if n == 8 {
        '8'
    } else {
        '9'
    }
}

/// The decimal digits of `n` as characters.
pub fn dec_chars_u64(n: u64) -> (v: Vec<char>)
    ensures
        v@ == dec_of_nat(n as nat),
{
    let mut rev: Vec<char> = Vec::new();
    let mut m: u64 = n;
    loop
        invariant_except_break
            dec_of_nat(n as nat) == dec_of_nat(m as nat) + rev@.reverse(),
        ensures
            dec_of_nat(n as nat) == rev@.reverse(),
        decreases m,
    {
        let d = dec_digit_char(m % 10);
        let ghost m_old = m;
        let ghost rev_old = rev@;
        rev.push(d);
        m = m / 10;
        proof {
            assert(rev_old.push(d).reverse() =~= seq![d] + rev_old.reverse());
        }
        if m == 0 {
            proof {
                assert(m_old < 10);
                assert(dec_of_nat(m_old as nat) == seq![d]);
                assert(seq![d] + rev_old.reverse() =~= rev@.reverse());
            }
            break ;
        }
        proof {
            assert(m_old >= 10);
            assert(dec_of_nat(m_old as nat) == dec_of_nat((m_old as nat) / 10).push(
                dec_digit(((m_old as nat) % 10) as int),
            ));
            assert(m as nat == (m_old as nat) / 10);
            assert(dec_of_nat(m as nat).push(d) + rev_old.reverse() =~= dec_of_nat(m as nat) + (
            seq![d] + rev_old.reverse()));
        }
    }
    let mut v: Vec<char> = Vec::new();
    let mut i: usize = rev.len();
    while i > 0
        invariant
            i <= rev@.len(),
            v@ == rev@.skip(i as int).reverse(),
        decreases i,
    {
        i = i - 1;
        v.push(rev[i]);
        proof {
            assert(rev@.skip(i as int).reverse() =~= rev@.skip(i as int + 1).reverse().push(
                rev@[i as int],
            ));
        }
    }
    proof {
        assert(rev@.skip(0) =~= rev@);
    }
    v
}

/// The decimal rendering of `n`.
pub fn dec_string_u64(n: u64) -> (s: String)
    ensures
        s@ == dec_of_nat(n as nat),
{
    let v = dec_chars_u64(n);
    string_of_chars(&v)
}

/// The decimal rendering of `v`, with a leading minus sign when negative.
pub fn dec_string_i64(x: i64) -> (s: String)
    ensures
        s@ == dec_of_int(x as int),
{
    if x >= 0 {
        let v = dec_chars_u64(x as u64);
        string_of_chars(&v)
    } else {
        let mag: u64 = (-(x as i128)) as u64;
        assert(mag as int == -(x as int));
        let digits = dec_chars_u64(mag);
        let mut v: Vec<char> = Vec::new();
        v.push('-');
        let mut i: usize = 0;
        while i < digits.len()
            invariant
                i <= digits@.len(),
                v@ == seq!['-'] + digits@.take(i as int),
            decreases digits@.len() - i,
        {
            v.push(digits[i]);
            assert((seq!['-'] + digits@.take(i as int)).push(digits@[i as int]) =~= seq!['-']
                + digits@.take(i as int + 1));
            i = i + 1;
        }
        proof {
            assert(digits@.take(digits@.len() as int) =~= digits@);
        }
        string_of_chars(&v)
    }
}

/// `parts` joined with `sep` between consecutive parts.
pub open spec fn join_with(parts: Seq<Seq<char>>, sep: Seq<char>) -> Seq<char>
    decreases parts.len(),
{
    if parts.len() == 0 {
        Seq::empty()
    } else if parts.len() == 1 {
        parts[0]
    } else {
        parts[0] + sep + join_with(parts.drop_first(), sep)
    }
}

/// Joins strings with a separator, as `[String]::join` does.
pub fn join_strings(parts: &Vec<String>, sep: &str) -> (r: String)
    ensures
        r@ == join_with(parts.deep_view(), sep@),
{
    let mut r = String::new();
    let mut k: usize = 0;
    while k < parts.len()
        invariant
            k <= parts@.len(),
            parts.deep_view().len() == parts@.len(),
            forall|j: int| 0 <= j < parts@.len() ==> parts.deep_view()[j] == parts@[j]@,
            k == 0 ==> r@ == Seq::<char>::empty(),
            k > 0 ==> join_with(parts.deep_view(), sep@) == r@ + (if k < parts@.len() {
                sep@ + join_with(parts.deep_view().skip(k as int), sep@)
            } else {
                Seq::<char>::empty()
            }),
        decreases parts@.len() - k,
    {
        let ghost r_old = r@;
        if k > 0 {
            r.append(sep);
        }
        r.append(parts[k].as_str());
        proof {
            let pv = parts.deep_view();
            assert(pv[k as int] == parts@[k as int]@);
            if k + 1 < pv.len() {
                assert(join_with(pv.skip(k as int), sep@) == pv.skip(k as int)[0] + sep@
                    + join_with(pv.skip(k as int).drop_first(), sep@));
                assert(pv.skip(k as int).drop_first() =~= pv.skip(k as int + 1));
                assert(pv.skip(k as int)[0] == pv[k as int]);
                if k == 0 {
                    assert(pv.skip(0) =~= pv);
                    assert(r@ =~= r_old + pv[0]);
                    assert(join_with(pv, sep@) =~= r@ + (sep@ + join_with(pv.skip(1), sep@)));
                } else {
                    assert(r@ =~= r_old + sep@ + pv[k as int]);
                    assert(r_old + (sep@ + join_with(pv.skip(k as int), sep@)) =~= r_old + sep@ + (
                    pv[k as int] + (sep@ + join_with(pv.skip(k as int + 1), sep@))));
                    assert(join_with(pv, sep@) =~= r@ + (sep@ + join_with(
                        pv.skip(k as int + 1),
                        sep@,
                    )));
                }
            } else {
                assert(pv.skip(k as int).len() == 1);
                assert(join_with(pv.skip(k as int), sep@) == pv.skip(k as int)[0]);
                assert(pv.skip(k as int)[0] == pv[k as int]);
                if k == 0 {
                    assert(pv.skip(0) =~= pv);
                    assert(join_with(pv, sep@) =~= r@);
                } else {
                    assert(r_old + (sep@ + pv[k as int]) =~= r@);
                    assert(join_with(pv, sep@) =~= r@);
                }
            }
        }
        k = k + 1;
    }
    proof {
        if parts@.len() == 0 {
            assert(join_with(parts.deep_view(), sep@) =~= Seq::<char>::empty());
        } else {
            assert(join_with(parts.deep_view(), sep@) =~= r@ + Seq::<char>::empty());
        }
        assert(r@ =~= join_with(parts.deep_view(), sep@));
    }
    r
}

} // verus!
