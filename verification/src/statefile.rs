//! The persisted run-state document: rendering the state to its JSON text
//! and reading it back, with anything unreadable treated as stopped.
//!
//! The document is a small fixed-shape object; the parser accepts exactly
//! what the renderer writes, for any status text free of double quotes and
//! any process id, and reading back a rendered state recovers it.

use vstd::prelude::*;

use crate::lifecycle::{State, TiltState};
use crate::strutil::{
    dec_val, dec_view, is_digit_char, lemma_dec_roundtrip, matches_at, u64_to_dec,
};

verus! {

/// The document text for a status and process id: the exact two-space
/// indented form.
pub open spec fn state_json_view(status: Seq<char>, pid: Option<u32>) -> Seq<char> {
    "{\n  \"tilt\": {\n    \"status\": \""@ + status + "\",\n    \"pid\": "@ + (match pid {
        Some(p) => dec_view(p as nat),
        None => "null"@,
    }) + "\n  }\n}"@
}

/// Renders the persisted run-state document.
pub fn render_state_json(state: &State) -> (r: String)
    ensures
        r@ == state_json_view(state.tilt.status@, state.tilt.pid),
{
    let mut out = String::new();
    out.append("{\n  \"tilt\": {\n    \"status\": \"");
    out.append(state.tilt.status.as_str());
    out.append("\",\n    \"pid\": ");
    match state.tilt.pid {
        Some(p) => {
            let d = u64_to_dec(p as u64);
            out.append(d.as_str());
        },
        None => {
            out.append("null");
        },
    }
    out.append("\n  }\n}");
    proof {
        assert(out@ =~= state_json_view(state.tilt.status@, state.tilt.pid));
    }
    out
}

// ---------------------------------------------------------------------------
// Parsing
// ---------------------------------------------------------------------------

/// The remainder of `s` after the literal prefix `p`, if `s` starts so.
pub open spec fn strip_prefix(s: Seq<char>, p: Seq<char>) -> Option<Seq<char>> {
    if p.len() <= s.len() && s.subrange(0, p.len() as int) == p {
        Some(s.skip(p.len() as int))
    } else {
        None
    }
}

/// The position of the first occurrence of `c`, or -1.
pub open spec fn find_idx(s: Seq<char>, c: char) -> int
    decreases s.len(),
{
    if s.len() == 0 {
        -1
    } else if s[0] == c {
        0
    } else if find_idx(s.skip(1), c) == -1 {
        -1
    } else {
        find_idx(s.skip(1), c) + 1
    }
}

proof fn lemma_find_idx_at(s: Seq<char>, c: char, j: int)
    requires
        0 <= j <= s.len(),
        forall|m: int| 0 <= m < j ==> (#[trigger] s[m]) != c,
        j < s.len() ==> s[j] == c,
    ensures
        j < s.len() ==> find_idx(s, c) == j,
        j == s.len() ==> find_idx(s, c) == -1,
    decreases j,
{
    if j == 0 {
    } else {
        assert(s[0] != c);
        assert(forall|m: int| 0 <= m < j - 1 ==> (#[trigger] s.skip(1)[m]) == s[m + 1]);
        lemma_find_idx_at(s.skip(1), c, j - 1);
    }
}

/// The length of the leading run of decimal digits.
pub open spec fn digit_run(s: Seq<char>) -> int
    decreases s.len(),
{
    if s.len() > 0 && is_digit_char(s[0]) {
        1 + digit_run(s.skip(1))
    } else {
        0
    }
}

proof fn lemma_digit_run_at(s: Seq<char>, j: int)
    requires
        0 <= j <= s.len(),
        forall|m: int| 0 <= m < j ==> is_digit_char(#[trigger] s[m]),
        j < s.len() ==> !is_digit_char(s[j]),
    ensures
        digit_run(s) == j,
    decreases j,
{
    if j == 0 {
    } else {
        assert(is_digit_char(s[0]));
        assert(forall|m: int| 0 <= m < j - 1 ==> (#[trigger] s.skip(1)[m]) == s[m + 1]);
        lemma_digit_run_at(s.skip(1), j - 1);
    }
}

/// Appending digits never shrinks the read value.
proof fn lemma_dec_val_grows(s: Seq<char>, a: int, b: int)
    requires
        0 <= a <= b <= s.len(),
    ensures
        dec_val(s.take(b)) >= dec_val(s.take(a)),
    decreases b - a,
{
    if b > a {
        lemma_dec_val_grows(s, a, b - 1);
        assert(s.take(b).drop_last() =~= s.take(b - 1));
        assert(dec_val(s.take(b)) == dec_val(s.take(b - 1)) * 10 + crate::strutil::digit_val(
            s.take(b).last(),
        ));
    }
}

/// The status and process id the document holds, exactly when it has the
/// canonical shape.
pub open spec fn parse_state_view(s: Seq<char>) -> Option<(Seq<char>, Option<u32>)> {
    match strip_prefix(s, "{\n  \"tilt\": {\n    \"status\": \""@) {
        None => None,
        Some(rest) => {
            let q = find_idx(rest, '"');
            if q < 0 {
                None
            } else {
                let status = rest.take(q);
                match strip_prefix(rest.skip(q), "\",\n    \"pid\": "@) {
                    None => None,
                    Some(rest2) => match strip_prefix(rest2, "null"@) {
                        Some(rest3) => if rest3 == "\n  }\n}"@ {
                            Some((status, None))
                        } else {
                            None
                        },
                        None => {
                            let d = digit_run(rest2);
                            if d == 0 {
                                None
                            } else if dec_val(rest2.take(d)) > u32::MAX {
                                None
                            } else if rest2.skip(d) == "\n  }\n}"@ {
                                Some((status, Some(dec_val(rest2.take(d)) as u32)))
                            } else {
                                None
                            }
                        },
                    },
                }
            }
        },
    }
}

fn is_digit(c: char) -> (r: bool)
    ensures
        r == is_digit_char(c),
{
    let u = c as u32;
    48 <= u && u <= 57
}

/// Reads a persisted run-state document of the canonical shape.
pub fn parse_state_json(s: &str) -> (r: Option<(String, Option<u32>)>)
    ensures
        match r {
            Some(sp) => parse_state_view(s@) == Some((sp.0@, sp.1)),
            None => parse_state_view(s@) is None,
        },
{
    let n = s.unicode_len();
    let pre = "{\n  \"tilt\": {\n    \"status\": \"";
    let plen = pre.unicode_len();
    if plen > n {
        return None;
    }
    if !matches_at(s, n, 0, pre, plen) {
        return None;
    }
    let ghost rest = s@.skip(plen as int);
    proof {
        assert(rest.len() == n - plen);
        assert(strip_prefix(s@, pre@) == Some(rest));
    }
    let mut q: usize = plen;
    while q < n && s.get_char(q) != '"'
        invariant
            n == s@.len(),
            plen <= q <= n,
            rest == s@.skip(plen as int),
            forall|m: int| plen <= m < q ==> (#[trigger] s@[m]) != '"',
        decreases n - q,
    {
        q = q + 1;
    }
    proof {
        assert(forall|m: int| 0 <= m < q - plen ==> (#[trigger] rest[m]) == s@[plen + m]);
        lemma_find_idx_at(rest, '"', q - plen);
    }
    if q == n {
        return None;
    }
    let status = s.substring_char(plen, q);
    proof {
        assert(rest.take(q - plen) =~= s@.subrange(plen as int, q as int));
    }
    let mid = "\",\n    \"pid\": ";
    let mlen = mid.unicode_len();
    let ghost after_status = rest.skip(q - plen);
    proof {
        assert(forall|m: int|
            0 <= m < after_status.len() ==> (#[trigger] after_status[m]) == s@[q + m]);
    }
    if mlen > n - q {
        proof {
            assert(strip_prefix(after_status, mid@) is None);
        }
        return None;
    }
    if !matches_at(s, n, q, mid, mlen) {
        proof {
            assert(after_status.subrange(0, mlen as int) =~= s@.subrange(q as int, q + mlen));
            assert(strip_prefix(after_status, mid@) is None);
        }
        return None;
    }
    let p0 = q + mlen;
    let ghost rest2 = after_status.skip(mlen as int);
    proof {
        assert(after_status.subrange(0, mlen as int) =~= s@.subrange(q as int, q + mlen));
        assert(strip_prefix(after_status, mid@) == Some(rest2));
        assert(forall|m: int| 0 <= m < rest2.len() ==> (#[trigger] rest2[m]) == s@[p0 + m]);
    }
    let suf = "\n  }\n}";
    let slen = suf.unicode_len();
    let nul = "null";
    let nlen = nul.unicode_len();
    if nlen <= n - p0 && matches_at(s, n, p0, nul, nlen) {
        proof {
            assert(rest2.subrange(0, nlen as int) =~= s@.subrange(p0 as int, p0 + nlen));
            assert(strip_prefix(rest2, nul@) == Some(rest2.skip(nlen as int)));
        }
        let p1 = p0 + nlen;
        let ghost rest3 = rest2.skip(nlen as int);
        proof {
            assert(forall|m: int| 0 <= m < rest3.len() ==> (#[trigger] rest3[m]) == s@[p1 + m]);
        }
        if n - p1 == slen && matches_at(s, n, p1, suf, slen) {
            proof {
                assert(rest3 =~= s@.subrange(p1 as int, p1 + slen));
                assert(rest3 =~= suf@);
            }
            let st = status.to_owned();
            return Some((st, None));
        } else {
            proof {
                if rest3 == suf@ {
                    assert(rest3.len() == slen);
                    assert(s@.subrange(p1 as int, p1 + slen) =~= rest3);
                }
            }
            return None;
        }
    }
    proof {
        if strip_prefix(rest2, nul@) is Some {
            assert(rest2.subrange(0, nlen as int) =~= s@.subrange(p0 as int, p0 + nlen));
        }
        assert(strip_prefix(rest2, nul@) is None);
    }
    // A run of decimal digits, read with an overflow guard.
    let mut i: usize = p0;
    let mut val: u32 = 0;
    proof {
        assert(rest2.take(0) =~= Seq::<char>::empty());
    }
    #[verifier::loop_isolation(false)]
    while i < n && is_digit(s.get_char(i))
        invariant
            n == s@.len(),
            p0 <= i <= n,
            rest2 == s@.skip(p0 as int),
            rest2.len() == n - p0,
            forall|m: int| 0 <= m < i - p0 ==> is_digit_char(#[trigger] rest2[m]),
            val == dec_val(rest2.take(i - p0)),
            forall|m: int| 0 <= m < rest2.len() ==> (#[trigger] rest2[m]) == s@[p0 + m],
        decreases n - i,
    {
        let c = s.get_char(i);
        let d = (c as u32) - 48;
        proof {
            assert(rest2[i - p0] == s@[i as int]);
        }
        if val > (u32::MAX - d) / 10 {
            // The run reads beyond the type's range, however it continues.
            proof {
                let cur = i - p0 + 1;
                assert(rest2.take(cur).drop_last() =~= rest2.take(cur - 1));
                assert(rest2.take(cur).last() == rest2[cur - 1]);
                assert(dec_val(rest2.take(cur)) == dec_val(rest2.take(cur - 1)) * 10
                    + crate::strutil::digit_val(rest2[cur - 1]));
                assert(dec_val(rest2.take(cur)) > u32::MAX) by {
                    assert(val > (u32::MAX - d) / 10);
                    assert(crate::strutil::digit_val(rest2[cur - 1]) == d);
                    assert(val * 10 + d > u32::MAX) by (nonlinear_arith)
                        requires
                            val > (u32::MAX - d) / 10,
                            d <= 9,
                    ;
                }
                let run = digit_run(rest2);
                assert(forall|m: int| 0 <= m < cur ==> is_digit_char(#[trigger] rest2[m]));
                lemma_digit_run_bounds(rest2);
                lemma_digit_run_ge(rest2, cur);
                lemma_dec_val_grows(rest2, cur, run);
                assert(dec_val(rest2.take(run)) > u32::MAX);
                assert(run > 0);
                assert(parse_state_view(s@) is None);
            }
            return None;
        }
        proof {
            let cur = i - p0 + 1;
            assert(rest2.take(cur).drop_last() =~= rest2.take(cur - 1));
            assert(rest2.take(cur).last() == rest2[cur - 1]);
            assert(crate::strutil::digit_val(rest2[cur - 1]) == d);
            assert(val * 10 + d <= u32::MAX) by (nonlinear_arith)
                requires
                    val <= (u32::MAX - d) / 10,
                    d <= 9,
            ;
        }
        val = val * 10 + d;
        i = i + 1;
    }
    proof {
        lemma_digit_run_at(rest2, i - p0);
    }
    if i == p0 {
        return None;
    }
    if n - i == slen && matches_at(s, n, i, suf, slen) {
        proof {
            let run = digit_run(rest2);
            assert(run == i - p0);
            assert(dec_val(rest2.take(run)) == val);
            assert(rest2.skip(run) =~= s@.subrange(i as int, i + slen));
            assert(rest2.skip(run) =~= suf@);
        }
        let st = status.to_owned();
        return Some((st, Some(val)));
    }
    proof {
        let run = digit_run(rest2);
        if rest2.skip(run) == suf@ {
            assert(rest2.skip(run).len() == slen);
            assert(s@.subrange(i as int, i + slen) =~= rest2.skip(run));
        }
    }
    None
}

proof fn lemma_digit_run_bounds(s: Seq<char>)
    ensures
        0 <= digit_run(s) <= s.len(),
    decreases s.len(),
{
    if s.len() > 0 && is_digit_char(s[0]) {
        lemma_digit_run_bounds(s.skip(1));
    }
}

proof fn lemma_digit_run_ge(s: Seq<char>, j: int)
    requires
        0 <= j <= s.len(),
        forall|m: int| 0 <= m < j ==> is_digit_char(#[trigger] s[m]),
    ensures
        digit_run(s) >= j,
    decreases j,
{
    if j > 0 {
        assert(is_digit_char(s[0]));
        assert(forall|m: int| 0 <= m < j - 1 ==> (#[trigger] s.skip(1)[m]) == s[m + 1]);
        lemma_digit_run_ge(s.skip(1), j - 1);
        lemma_digit_run_bounds(s.skip(1));
    } else {
        lemma_digit_run_bounds(s);
    }
}

// ---------------------------------------------------------------------------
// Reading with a default
// ---------------------------------------------------------------------------

/// Interprets the persisted run-state document: a missing or unreadable
/// document means stopped with no process.
pub fn read_state(content: Option<&String>) -> (r: State)
    ensures
        match content {
            None => r.tilt.status@ == "stopped"@ && r.tilt.pid is None,
            Some(c) => match parse_state_view(c@) {
                Some(sp) => r.tilt.status@ == sp.0 && r.tilt.pid == sp.1,
                None => r.tilt.status@ == "stopped"@ && r.tilt.pid is None,
            },
        },
{
    match content {
        None => crate::lifecycle::stopped_state(),
        Some(c) => match parse_state_json(c.as_str()) {
            Some((status, pid)) => State { tilt: TiltState { status, pid } },
            None => crate::lifecycle::stopped_state(),
        },
    }
}

// ---------------------------------------------------------------------------
// The round trip
// ---------------------------------------------------------------------------

/// Reading back a rendered run-state document recovers the status and the
/// process id, for any status free of double quotes.
pub proof fn lemma_state_json_roundtrip(status: Seq<char>, pid: Option<u32>)
    requires
        forall|i: int| 0 <= i < status.len() ==> (#[trigger] status[i]) != '"',
    ensures
        parse_state_view(state_json_view(status, pid)) == Some((status, pid)),
{
    reveal_strlit("\",\n    \"pid\": ");
    reveal_strlit("null");
    reveal_strlit("\n  }\n}");
    let pre = "{\n  \"tilt\": {\n    \"status\": \""@;
    let mid = "\",\n    \"pid\": "@;
    let suf = "\n  }\n}"@;
    let pidtext = match pid {
        Some(p) => dec_view(p as nat),
        None => "null"@,
    };
    let s = state_json_view(status, pid);
    assert(s == pre + status + mid + pidtext + suf);
    // The fixed prefix strips off.
    assert(s.subrange(0, pre.len() as int) =~= pre);
    let rest = s.skip(pre.len() as int);
    assert(strip_prefix(s, pre) == Some(rest));
    assert(rest =~= status + mid + pidtext + suf);
    // The status runs to the first double quote, which opens `mid`.
    assert(mid[0] == '"');
    assert(forall|m: int| 0 <= m < status.len() ==> (#[trigger] rest[m]) == status[m]);
    assert(rest[status.len() as int] == '"');
    lemma_find_idx_at(rest, '"', status.len() as int);
    assert(find_idx(rest, '"') == status.len());
    assert(rest.take(status.len() as int) =~= status);
    let after_status = rest.skip(status.len() as int);
    assert(after_status =~= mid + pidtext + suf);
    assert(after_status.subrange(0, mid.len() as int) =~= mid);
    let rest2 = after_status.skip(mid.len() as int);
    assert(strip_prefix(after_status, mid) == Some(rest2));
    assert(rest2 =~= pidtext + suf);
    match pid {
        None => {
            assert(pidtext == "null"@);
            assert(rest2.subrange(0, 4) =~= "null"@);
            let rest3 = rest2.skip(4);
            assert(strip_prefix(rest2, "null"@) == Some(rest3));
            assert(rest3 =~= suf);
        },
        Some(p) => {
            lemma_dec_roundtrip(p as nat);
            let d = pidtext.len() as int;
            // The digits are not the word `null`.
            assert(strip_prefix(rest2, "null"@) is None) by {
                if strip_prefix(rest2, "null"@) is Some {
                    assert(rest2.subrange(0, 4)[0] == 'n');
                    assert(rest2[0] == pidtext[0]);
                    assert(is_digit_char(pidtext[0]));
                    assert('n' as u32 == 110);
                }
            }
            // The digit run is exactly the rendered number.
            assert(forall|m: int| 0 <= m < d ==> (#[trigger] rest2[m]) == pidtext[m]);
            assert(rest2[d] == suf[0]);
            assert(suf[0] == '\n');
            assert(!is_digit_char('\n')) by {
                assert('\n' as u32 == 10);
            }
            lemma_digit_run_at(rest2, d);
            assert(rest2.take(d) =~= pidtext);
            assert(dec_val(rest2.take(d)) == p as nat);
            assert(rest2.skip(d) =~= suf);
        },
    }
}

} // verus!
