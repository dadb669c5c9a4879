//! Verified string helpers: template substitution, joining, decimal
//! rendering and parsing, trimming, and line splitting.

use vstd::prelude::*;

verus! {

/// The views of a vector of strings.
pub open spec fn views_of(v: Seq<String>) -> Seq<Seq<char>> {
    v.map_values(|x: String| x@)
}

// ---------------------------------------------------------------------------
// Substring search and replacement
// ---------------------------------------------------------------------------

/// `needle` occurs contiguously somewhere in `hay`.
pub open spec fn contains_sub(hay: Seq<char>, needle: Seq<char>) -> bool {
    exists|i: int|
        0 <= i && i + needle.len() <= hay.len() && #[trigger] hay.subrange(i, i + needle.len())
            == needle
}

/// `s` with every non-overlapping occurrence of `f` replaced by `t`,
/// scanning left to right. An empty pattern replaces nothing.
pub open spec fn replace_view(s: Seq<char>, f: Seq<char>, t: Seq<char>) -> Seq<char>
    decreases s.len(),
{
    if f.len() == 0 || s.len() < f.len() {
        s
    } else if s.subrange(0, f.len() as int) == f {
        t + replace_view(s.skip(f.len() as int), f, t)
    } else {
        seq![s[0]] + replace_view(s.skip(1), f, t)
    }
}

/// Whether the characters of `pat` appear in `s` starting at position `i`.
pub(crate) fn matches_at(s: &str, n: usize, i: usize, pat: &str, plen: usize) -> (r: bool)
    requires
        n == s@.len(),
        plen == pat@.len(),
        i + plen <= n,
    ensures
        r == (s@.subrange(i as int, i + plen) == pat@),
{
    let mut j: usize = 0;
    while j < plen
        invariant
            n == s@.len(),
            plen == pat@.len(),
            i + plen <= n,
            j <= plen,
            forall|m: int| 0 <= m < j ==> s@[i + m] == pat@[m],
        decreases plen - j,
    {
        if s.get_char(i + j) != pat.get_char(j) {
            proof {
                assert(s@.subrange(i as int, i + plen)[j as int] != pat@[j as int]);
            }
            return false;
        }
        j = j + 1;
    }
    proof {
        assert(s@.subrange(i as int, i + plen) =~= pat@);
    }
    true
}

/// Whether two string slices hold the same characters.
pub fn str_eq(a: &str, b: &str) -> (r: bool)
    ensures
        r == (a@ == b@),
{
    let na = a.unicode_len();
    let nb = b.unicode_len();
    if na != nb {
        return false;
    }
    let r = matches_at(a, na, 0, b, nb);
    proof {
        assert(a@.subrange(0, nb as int) =~= a@);
    }
    r
}

/// An occurrence survives prepending more text.
pub proof fn lemma_contains_sub_prepend(pre: Seq<char>, hay: Seq<char>, sub: Seq<char>)
    requires
        contains_sub(hay, sub),
    ensures
        contains_sub(pre + hay, sub),
{
    let i = choose|i: int|
        0 <= i && i + sub.len() <= hay.len() && #[trigger] hay.subrange(i, i + sub.len()) == sub;
    assert((pre + hay).subrange(pre.len() + i, pre.len() + i + sub.len()) =~= hay.subrange(
        i,
        i + sub.len(),
    ));
    assert(contains_sub(pre + hay, sub)) by {
        assert((pre + hay).subrange(pre.len() + i, (pre.len() + i) + sub.len()) == sub);
    }
}

/// Replaces every non-overlapping occurrence of `from` in `s` with `to`,
/// scanning left to right, as `replace_view` describes.
pub fn replace_all(s: &str, from: &str, to: &str) -> (r: String)
    ensures
        r@ == replace_view(s@, from@, to@),
{
    let n = s.unicode_len();
    let flen = from.unicode_len();
    let mut out = String::new();
    if flen == 0 {
        let r = s.to_owned();
        return r;
    }
    let mut i: usize = 0;
    proof {
        assert(s@.skip(0) =~= s@);
        assert(out@ + replace_view(s@, from@, to@) =~= replace_view(s@, from@, to@));
    }
    while i < n
        invariant
            n == s@.len(),
            flen == from@.len(),
            flen >= 1,
            i <= n,
            out@ + replace_view(s@.skip(i as int), from@, to@) == replace_view(s@, from@, to@),
        decreases n - i,
    {
        let ghost prev = out@;
        let ghost rest = s@.skip(i as int);
        if flen <= n - i && matches_at(s, n, i, from, flen) {
            out.append(to);
            proof {
                assert(rest.subrange(0, flen as int) =~= s@.subrange(i as int, i + flen));
                assert(rest.skip(flen as int) =~= s@.skip(i + flen));
                assert(replace_view(rest, from@, to@) == to@ + replace_view(
                    s@.skip(i + flen),
                    from@,
                    to@,
                ));
                assert(out@ + replace_view(s@.skip(i + flen), from@, to@) =~= prev
                    + replace_view(rest, from@, to@));
            }
            i = i + flen;
        } else {
            let piece = s.substring_char(i, i + 1);
            out.append(piece);
            proof {
                assert(rest.skip(1) =~= s@.skip(i + 1));
                assert(seq![rest[0]] =~= s@.subrange(i as int, i + 1));
                if rest.len() >= flen {
                    assert(rest.subrange(0, flen as int) =~= s@.subrange(i as int, i + flen));
                    assert(s@.subrange(i as int, i + flen) != from@);
                } else {
                    assert(replace_view(rest, from@, to@) == rest);
                    assert(replace_view(rest.skip(1), from@, to@) == rest.skip(1));
                    assert(rest =~= seq![rest[0]] + rest.skip(1));
                }
                assert(replace_view(rest, from@, to@) == seq![rest[0]] + replace_view(
                    s@.skip(i + 1),
                    from@,
                    to@,
                ));
                assert(out@ + replace_view(s@.skip(i + 1), from@, to@) =~= prev + replace_view(
                    rest,
                    from@,
                    to@,
                ));
            }
            i = i + 1;
        }
    }
    proof {
        assert(s@.skip(n as int) =~= Seq::<char>::empty());
        assert(out@ + Seq::<char>::empty() =~= out@);
    }
    out
}

// ---------------------------------------------------------------------------
// Joining
// ---------------------------------------------------------------------------

/// The elements of `parts` concatenated with `sep` between neighbours.
pub open spec fn join_view(parts: Seq<Seq<char>>, sep: Seq<char>) -> Seq<char>
    decreases parts.len(),
{
    if parts.len() == 0 {
        Seq::empty()
    } else if parts.len() == 1 {
        parts[0]
    } else {
        parts[0] + sep + join_view(parts.skip(1), sep)
    }
}

proof fn lemma_join_push(parts: Seq<Seq<char>>, sep: Seq<char>, x: Seq<char>)
    ensures
        parts.len() == 0 ==> join_view(parts.push(x), sep) == x,
        parts.len() > 0 ==> join_view(parts.push(x), sep) == join_view(parts, sep) + sep + x,
    decreases parts.len(),
{
    if parts.len() == 0 {
        assert(join_view(parts.push(x), sep) =~= x);
    } else if parts.len() == 1 {
        let p = parts.push(x);
        assert(p.len() == 2);
        assert(p[0] == parts[0]);
        assert(p.skip(1) =~= seq![x]);
        assert(join_view(seq![x], sep) == seq![x][0]);
        assert(seq![x][0] == x);
        assert(join_view(p, sep) == p[0] + sep + join_view(p.skip(1), sep));
        assert(join_view(parts.push(x), sep) =~= parts[0] + sep + x);
    } else {
        lemma_join_push(parts.skip(1), sep, x);
        assert(parts.push(x).skip(1) =~= parts.skip(1).push(x));
        assert(join_view(parts.push(x), sep) =~= parts[0] + sep + join_view(
            parts.skip(1).push(x),
            sep,
        ));
        assert(join_view(parts, sep) + sep + x =~= parts[0] + sep + (join_view(parts.skip(1), sep)
            + sep + x));
    }
}

/// Joins the strings of `parts` with `sep` between neighbours.
pub fn join_strings(parts: &Vec<String>, sep: &str) -> (r: String)
    ensures
        r@ == join_view(views_of(parts@), sep@),
{
    let mut out = String::new();
    let mut i: usize = 0;
    while i < parts.len()
        invariant
            i <= parts@.len(),
            out@ == join_view(views_of(parts@).take(i as int), sep@),
        decreases parts@.len() - i,
    {
        if i > 0 {
            out.append(sep);
        }
        out.append(parts[i].as_str());
        proof {
            let vs = views_of(parts@);
            assert(vs.take(i as int).push(vs[i as int]) =~= vs.take(i + 1));
            lemma_join_push(vs.take(i as int), sep@, vs[i as int]);
        }
        i = i + 1;
    }
    proof {
        assert(views_of(parts@).take(parts@.len() as int) =~= views_of(parts@));
    }
    out
}

/// Every joined element appears contiguously in the joined string.
pub proof fn lemma_join_contains_each(parts: Seq<Seq<char>>, sep: Seq<char>, k: int)
    requires
        0 <= k < parts.len(),
    ensures
        contains_sub(join_view(parts, sep), parts[k]),
    decreases parts.len(),
{
    let j = join_view(parts, sep);
    if parts.len() == 1 {
        assert(j == parts[0]);
        assert(j.subrange(0, parts[0].len() as int) =~= parts[0]);
        assert(contains_sub(j, parts[k])) by {
            assert(j.subrange(0, 0 + parts[k].len() as int) == parts[k]);
        }
    } else if k == 0 {
        assert(j == parts[0] + sep + join_view(parts.skip(1), sep));
        assert(j.subrange(0, parts[0].len() as int) =~= parts[0]);
        assert(contains_sub(j, parts[k])) by {
            assert(j.subrange(0, 0 + parts[k].len() as int) == parts[k]);
        }
    } else {
        lemma_join_contains_each(parts.skip(1), sep, k - 1);
        let tail = join_view(parts.skip(1), sep);
        let l = parts[k].len() as int;
        assert(parts.skip(1)[k - 1] == parts[k]);
        let i0 = choose|i: int|
            0 <= i && i + parts[k].len() <= tail.len() && #[trigger] tail.subrange(
                i,
                i + parts[k].len(),
            ) == parts[k];
        let off = parts[0].len() + sep.len();
        assert(j == parts[0] + sep + tail);
        assert(j.subrange(off + i0, off + i0 + l) =~= tail.subrange(i0, i0 + l));
        assert(contains_sub(j, parts[k])) by {
            assert(j.subrange(off + i0, (off + i0) + parts[k].len()) == parts[k]);
        }
    }
}

// ---------------------------------------------------------------------------
// Decimal rendering and parsing
// ---------------------------------------------------------------------------

/// The decimal digit character for `d < 10`.
pub open spec fn digit_char(d: nat) -> char {
    if d == 0 {
        '0'
    } else if d == 1 {
        '1'
    } else if d == 2 {
        '2'
    } else if d == 3 {
        '3'
    } else if d == 4 {
        '4'
    } else if d == 5 {
        '5'
    } else if d == 6 {
        '6'
    } else if d == 7 {
        '7'
    } else if d == 8 {
        '8'
    } else {
        '9'
    }
}

/// The decimal rendering of `n`, most significant digit first.
pub open spec fn dec_view(n: nat) -> Seq<char>
    decreases n,
{
    if n < 10 {
        seq![digit_char(n)]
    } else {
        dec_view(n / 10) + seq![digit_char(n % 10)]
    }
}

pub open spec fn is_digit_char(c: char) -> bool {
    48 <= c as u32 <= 57
}

pub open spec fn digit_val(c: char) -> nat {
    (c as u32 - 48) as nat
}

/// The numeric value of a digit string, most significant digit first.
pub open spec fn dec_val(s: Seq<char>) -> nat
    decreases s.len(),
{
    if s.len() == 0 {
        0
    } else {
        dec_val(s.drop_last()) * 10 + digit_val(s.last())
    }
}

pub open spec fn all_digits(s: Seq<char>) -> bool {
    forall|i: int| 0 <= i < s.len() ==> is_digit_char(s[i])
}

/// A digit character reads back as its digit.
pub proof fn lemma_digit_char_val(d: nat)
    requires
        d < 10,
    ensures
        is_digit_char(digit_char(d)),
        digit_val(digit_char(d)) == d,
{
    if d == 0 {
        assert('0' as u32 == 48);
    } else if d == 1 {
        assert('1' as u32 == 49);
    } else if d == 2 {
        assert('2' as u32 == 50);
    } else if d == 3 {
        assert('3' as u32 == 51);
    } else if d == 4 {
        assert('4' as u32 == 52);
    } else if d == 5 {
        assert('5' as u32 == 53);
    } else if d == 6 {
        assert('6' as u32 == 54);
    } else if d == 7 {
        assert('7' as u32 == 55);
    } else if d == 8 {
        assert('8' as u32 == 56);
    } else {
        assert('9' as u32 == 57);
    }
}

/// Reading back a rendered decimal yields the original number, and the
/// rendering consists of digits only.
pub proof fn lemma_dec_roundtrip(n: nat)
    ensures
        dec_view(n).len() >= 1,
        all_digits(dec_view(n)),
        dec_val(dec_view(n)) == n,
    decreases n,
{
    if n < 10 {
        lemma_digit_char_val(n);
        assert(dec_view(n) =~= seq![digit_char(n)]);
        assert(dec_view(n).drop_last() =~= Seq::<char>::empty());
        assert(dec_view(n).last() == digit_char(n));
        assert(dec_val(dec_view(n)) == dec_val(Seq::<char>::empty()) * 10 + digit_val(
            digit_char(n),
        ));
    } else {
        lemma_dec_roundtrip(n / 10);
        lemma_digit_char_val(n % 10);
        let w = dec_view(n / 10) + seq![digit_char(n % 10)];
        assert(dec_view(n) == w);
        assert(w.drop_last() =~= dec_view(n / 10));
        assert(w.last() == digit_char(n % 10));
        assert(dec_val(w) == dec_val(dec_view(n / 10)) * 10 + digit_val(digit_char(n % 10)));
        assert(dec_val(w) == (n / 10) * 10 + n % 10);
        assert((n / 10) * 10 + n % 10 == n) by (nonlinear_arith);
        assert(forall|i: int|
            0 <= i < w.len() ==> is_digit_char(#[trigger] w[i])) by {
            assert(forall|i: int|
                0 <= i < dec_view((n / 10) as nat).len() ==> is_digit_char(
                    #[trigger] dec_view((n / 10) as nat)[i],
                ));
        }
    }
}

fn digit_str(d: u64) -> (r: &'static str)
    requires
        d < 10,
    ensures
        r@ == seq![digit_char(d as nat)],
{
    proof {
        reveal_strlit("0");
        reveal_strlit("1");
        reveal_strlit("2");
        reveal_strlit("3");
        reveal_strlit("4");
        reveal_strlit("5");
        reveal_strlit("6");
        reveal_strlit("7");
        reveal_strlit("8");
        reveal_strlit("9");
    }
    let r = if d == 0 {
        "0"
    } else if d == 1 {
        "1"
    } else if d == 2 {
        "2"
    } else if d == 3 {
        "3"
    } else if d == 4 {
        "4"
    } else if d == 5 {
        "5"
    } else if d == 6 {
        "6"
    } else if d == 7 {
        "7"
    } else if d == 8 {
        "8"
    } else {
        "9"
    };
    proof {
        assert(r@ =~= seq![digit_char(d as nat)]);
    }
    r
}

// ---------------------------------------------------------------------------
// Trimming
// ---------------------------------------------------------------------------

/// The whitespace characters recognised at the edges of probe output.
pub open spec fn is_wsp(c: char) -> bool {
    c == ' ' || c == '\t' || c == '\r' || c == '\n'
}

pub open spec fn trim_start_view(s: Seq<char>) -> Seq<char>
    decreases s.len(),
{
    if s.len() > 0 && is_wsp(s[0]) {
        trim_start_view(s.skip(1))
    } else {
        s
    }
}

pub open spec fn trim_end_view(s: Seq<char>) -> Seq<char>
    decreases s.len(),
{
    if s.len() > 0 && is_wsp(s.last()) {
        trim_end_view(s.drop_last())
    } else {
        s
    }
}

/// `s` without leading and trailing whitespace.
pub open spec fn trim_view(s: Seq<char>) -> Seq<char> {
    trim_end_view(trim_start_view(s))
}

proof fn lemma_trim_start_at(s: Seq<char>, lo: int)
    requires
        0 <= lo <= s.len(),
        forall|m: int| 0 <= m < lo ==> is_wsp(#[trigger] s[m]),
        lo < s.len() ==> !is_wsp(s[lo]),
    ensures
        trim_start_view(s) == s.skip(lo),
    decreases lo,
{
    if lo == 0 {
        assert(s.skip(0) =~= s);
    } else {
        assert(is_wsp(s[0]));
        lemma_trim_start_at(s.skip(1), lo - 1);
        assert(s.skip(1).skip(lo - 1) =~= s.skip(lo));
    }
}

proof fn lemma_trim_end_at(s: Seq<char>, hi: int)
    requires
        0 <= hi <= s.len(),
        forall|m: int| hi <= m < s.len() ==> is_wsp(#[trigger] s[m]),
        hi > 0 ==> !is_wsp(s[hi - 1]),
    ensures
        trim_end_view(s) == s.take(hi),
    decreases s.len() - hi,
{
    if hi == s.len() {
        assert(s.take(hi) =~= s);
    } else {
        assert(is_wsp(s.last()));
        lemma_trim_end_at(s.drop_last(), hi);
        assert(s.drop_last().take(hi) =~= s.take(hi));
    }
}

fn is_wsp_char(c: char) -> (r: bool)
    ensures
        r == is_wsp(c),
{
    c == ' ' || c == '\t' || c == '\r' || c == '\n'
}

/// Removes leading and trailing whitespace.
pub fn trim_spaces(s: &str) -> (r: String)
    ensures
        r@ == trim_view(s@),
{
    let n = s.unicode_len();
    let mut lo: usize = 0;
    while lo < n && is_wsp_char(s.get_char(lo))
        invariant
            n == s@.len(),
            lo <= n,
            forall|m: int| 0 <= m < lo ==> is_wsp(#[trigger] s@[m]),
        decreases n - lo,
    {
        lo = lo + 1;
    }
    if lo == n {
        proof {
            lemma_trim_start_at(s@, n as int);
            assert(s@.skip(n as int) =~= Seq::<char>::empty());
        }
        let r = String::new();
        return r;
    }
    let mut hi: usize = n;
    while hi > lo && is_wsp_char(s.get_char(hi - 1))
        invariant
            n == s@.len(),
            lo < n,
            !is_wsp(s@[lo as int]),
            lo < hi <= n,
            forall|m: int| hi <= m < n ==> is_wsp(#[trigger] s@[m]),
        decreases hi,
    {
        hi = hi - 1;
    }
    let piece = s.substring_char(lo, hi);
    proof {
        lemma_trim_start_at(s@, lo as int);
        let rest = s@.skip(lo as int);
        assert(forall|m: int| hi - lo <= m < rest.len() ==> is_wsp(#[trigger] rest[m]));
        assert(!is_wsp(rest[hi - lo - 1]));
        lemma_trim_end_at(rest, hi - lo);
        assert(rest.take(hi - lo) =~= s@.subrange(lo as int, hi as int));
    }
    let r = piece.to_owned();
    r
}

// ---------------------------------------------------------------------------
// Line splitting
// ---------------------------------------------------------------------------

/// The position of the first newline, or -1 when there is none.
pub open spec fn first_nl(s: Seq<char>) -> int
    decreases s.len(),
{
    if s.len() == 0 {
        -1
    } else if s[0] == '\n' {
        0
    } else if first_nl(s.skip(1)) == -1 {
        -1
    } else {
        first_nl(s.skip(1)) + 1
    }
}

proof fn lemma_first_nl_at(s: Seq<char>, j: int)
    requires
        0 <= j <= s.len(),
        forall|m: int| 0 <= m < j ==> (#[trigger] s[m]) != '\n',
        j < s.len() ==> s[j] == '\n',
    ensures
        j < s.len() ==> first_nl(s) == j,
        j == s.len() ==> first_nl(s) == -1,
    decreases j,
{
    if j == 0 {
    } else {
        assert(s[0] != '\n');
        assert(forall|m: int| 0 <= m < j - 1 ==> (#[trigger] s.skip(1)[m]) == s[m + 1]);
        lemma_first_nl_at(s.skip(1), j - 1);
    }
}

/// One trailing carriage return is stripped from a newline-ended line.
pub open spec fn strip_cr(x: Seq<char>) -> Seq<char> {
    if x.len() > 0 && x.last() == '\r' {
        x.drop_last()
    } else {
        x
    }
}

/// The lines of `s`: split at newlines, a carriage return before a newline
/// stripped, and no empty final line for a trailing newline.
pub open spec fn lines_view(s: Seq<char>) -> Seq<Seq<char>>
    decreases s.len(),
{
    if s.len() == 0 {
        Seq::empty()
    } else {
        let j = first_nl(s);
        if 0 <= j && j < s.len() {
            seq![strip_cr(s.take(j))] + lines_view(s.skip(j + 1))
        } else {
            seq![s]
        }
    }
}

/// Splits `s` into its lines.
pub fn split_lines(s: &str) -> (r: Vec<String>)
    ensures
        views_of(r@) == lines_view(s@),
{
    let n = s.unicode_len();
    let mut out: Vec<String> = Vec::new();
    let mut i: usize = 0;
    proof {
        assert(s@.skip(0) =~= s@);
        assert(views_of(out@) =~= Seq::<Seq<char>>::empty());
        assert(views_of(out@) + lines_view(s@) =~= lines_view(s@));
    }
    while i < n
        invariant
            n == s@.len(),
            i <= n,
            views_of(out@) + lines_view(s@.skip(i as int)) == lines_view(s@),
        decreases n - i,
    {
        let ghost prev = views_of(out@);
        let ghost rest = s@.skip(i as int);
        let mut j: usize = i;
        while j < n && s.get_char(j) != '\n'
            invariant
                n == s@.len(),
                i <= j <= n,
                forall|m: int| i <= m < j ==> (#[trigger] s@[m]) != '\n',
            decreases n - j,
        {
            j = j + 1;
        }
        let end = if j > i && j < n && s.get_char(j - 1) == '\r' {
            j - 1
        } else {
            j
        };
        let piece = s.substring_char(i, end);
        out.push(piece.to_owned());
        proof {
            assert(views_of(out@) =~= prev.push(piece@));
            assert(forall|m: int| 0 <= m < j - i ==> (#[trigger] rest[m]) == s@[i + m]);
            lemma_first_nl_at(rest, j - i);
            if j < n {
                assert(first_nl(rest) == j - i);
                assert(rest.take(j - i) =~= s@.subrange(i as int, j as int));
                if j > i && s@[j - 1] == '\r' {
                    assert(strip_cr(rest.take(j - i)) =~= s@.subrange(i as int, j - 1));
                } else {
                    assert(strip_cr(rest.take(j - i)) =~= s@.subrange(i as int, j as int));
                }
                assert(rest.skip(j - i + 1) =~= s@.skip(j + 1));
                assert(lines_view(rest) == seq![strip_cr(rest.take(j - i))] + lines_view(
                    s@.skip(j + 1),
                ));
                assert(prev.push(piece@) + lines_view(s@.skip(j + 1)) =~= prev + lines_view(rest));
            } else {
                assert(first_nl(rest) == -1);
                assert(rest.len() > 0);
                assert(lines_view(rest) == seq![rest]);
                assert(piece@ =~= rest);
                assert(s@.skip(n as int) =~= Seq::<char>::empty());
                assert(prev.push(piece@) + lines_view(s@.skip(n as int)) =~= prev + lines_view(
                    rest,
                ));
            }
        }
        i = if j < n {
            j + 1
        } else {
            n
        };
    }
    proof {
        assert(s@.skip(n as int) =~= Seq::<char>::empty());
        assert(views_of(out@) + lines_view(s@.skip(n as int)) =~= views_of(out@));
    }
    out
}

/// Renders `n` in decimal.
pub fn u64_to_dec(n: u64) -> (r: String)
    ensures
        r@ == dec_view(n as nat),
    decreases n,
{
    if n < 10 {
        let r = digit_str(n).to_owned();
        r
    } else {
        let mut r = u64_to_dec(n / 10);
        r.append(digit_str(n % 10));
        r
    }
}

} // verus!
