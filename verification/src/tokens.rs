//! How printed tokens read back: quoted strings, number literals, confidences
//! and the blanks between them.
use vstd::prelude::*;

use crate::grammar::{
    at, bare_stop, bare_value, conf_at, keyword_at, qbody, qstr, scan, skip_comment, skip_ws,
    starts_at, stops, trim, trim_end, trim_start, ws_end, Stop,
};
use crate::number::{
    ci_char, ci_eq, digits_end, exp_digits_start, frac_digits, has_point, in_unit_interval,
    int_end, is_decimal_literal, is_digit, is_float_literal, is_special, mantissa_digits,
    mantissa_end, sign_len, lemma_digits_end,
};
use crate::print::{escape, escape_all, quoted};
use crate::text::{alnum, is_ascii_alnum, is_ws};

verus! {

/// `t` stands in `s` at position `p`.
pub open spec fn mat(s: Seq<char>, p: int, t: Seq<char>) -> bool {
    0 <= p && p + t.len() <= s.len() && s.subrange(p, p + t.len()) == t
}

pub(crate) proof fn lemma_mat_split(s: Seq<char>, p: int, a: Seq<char>, b: Seq<char>)
    requires
        mat(s, p, a + b),
    ensures
        mat(s, p, a),
        mat(s, p + a.len(), b),
{
    assert(s.subrange(p, p + a.len()) =~= (a + b).subrange(0, a.len() as int));
    assert((a + b).subrange(0, a.len() as int) =~= a);
    assert(s.subrange(p + a.len(), p + a.len() + b.len()) =~= (a + b).subrange(
        a.len() as int,
        (a + b).len() as int,
    ));
    assert((a + b).subrange(a.len() as int, (a + b).len() as int) =~= b);
}

pub(crate) proof fn lemma_mat_char(s: Seq<char>, p: int, t: Seq<char>, i: int)
    requires
        mat(s, p, t),
        0 <= i < t.len(),
    ensures
        s[p + i] == t[i],
{
    assert(s.subrange(p, p + t.len())[i] == s[p + i]);
}

pub(crate) proof fn lemma_escape_all_step(t: Seq<char>, i: int)
    requires
        0 <= i < t.len(),
    ensures
        escape_all(t.take(i + 1)) == escape_all(t.take(i)) + escape(t[i]),
{
    assert(t.take(i + 1).drop_last() =~= t.take(i));
}

/// Reading the quoted form of `t` from position `p` (at its opening quote).
pub(crate) proof fn lemma_quoted(s: Seq<char>, p: int, t: Seq<char>)
    requires
        mat(s, p, quoted(t)),
    ensures
        qstr(s, p) == Ok::<(Seq<char>, int), (Seq<char>, int)>((t, p + quoted(t).len())),
{
    lemma_mat_split(s, p, seq!['"'] + escape_all(t), seq!['"']);
    lemma_mat_split(s, p, seq!['"'], escape_all(t));
    let body_start = p + 1;
    let e = escape_all(t);
    // after reading the escapes of t.take(i), qbody continues from there
    assert forall|i: int| 0 <= i <= t.len() implies qbody(
        s,
        body_start + escape_all(t.take(i)).len(),
        t.take(i),
    ) == qbody(s, body_start, Seq::empty()) by {
        lemma_quoted_prefix(s, body_start, t, i);
    }
    assert(t.take(t.len() as int) =~= t);
    let end = body_start + e.len();
    lemma_mat_char(s, p, quoted(t), quoted(t).len() - 1);
    assert(s[end] == '"');
    assert(qbody(s, end, t) == Some((t, end + 1)));
}

proof fn lemma_quoted_prefix(s: Seq<char>, q0: int, t: Seq<char>, i: int)
    requires
        0 <= i <= t.len(),
        mat(s, q0, escape_all(t)),
    ensures
        qbody(s, q0 + escape_all(t.take(i)).len(), t.take(i)) == qbody(s, q0, Seq::empty()),
    decreases i,
{
    if i == 0 {
        assert(t.take(0) =~= Seq::<char>::empty());
    } else {
        lemma_quoted_prefix(s, q0, t, i - 1);
        lemma_escape_all_step(t, i - 1);
        let pre = escape_all(t.take(i - 1));
        let c = t[i - 1];
        let q = q0 + pre.len();
        // escape_all(t) starts with escape_all(t.take(i))
        lemma_escape_prefix(t, i);
        let full = escape_all(t);
        let mid = escape_all(t.take(i));
        assert(mid == pre + escape(c));
        lemma_mat_split(s, q0, mid, full.skip(mid.len() as int));
        assert(mid + full.skip(mid.len() as int) =~= full);
        lemma_mat_split(s, q0, pre, escape(c));
        assert(t.take(i) =~= t.take(i - 1).push(c));
        if c == '"' || c == '\\' || c == '\n' || c == '\t' || c == '\r' {
            lemma_mat_char(s, q, escape(c), 0);
            lemma_mat_char(s, q, escape(c), 1);
        } else {
            lemma_mat_char(s, q, escape(c), 0);
        }
    }
}

proof fn lemma_escape_prefix(t: Seq<char>, i: int)
    requires
        0 <= i <= t.len(),
    ensures
        escape_all(t) == escape_all(t.take(i)) + escape_all(t).skip(escape_all(t.take(i)).len() as int),
        escape_all(t.take(i)).len() <= escape_all(t).len(),
    decreases t.len() - i,
{
    if i == t.len() {
        assert(t.take(i) =~= t);
        assert(escape_all(t).skip(escape_all(t).len() as int) =~= Seq::<char>::empty());
        assert(escape_all(t) + Seq::<char>::empty() =~= escape_all(t));
    } else {
        lemma_escape_prefix(t, i + 1);
        lemma_escape_all_step(t, i);
        let a = escape_all(t.take(i));
        let b = escape_all(t.take(i + 1));
        let f = escape_all(t);
        assert(b == a + escape(t[i]));
        assert(f == b + f.skip(b.len() as int));
        assert(f.skip(a.len() as int) =~= escape(t[i]) + f.skip(b.len() as int));
        assert(f =~= a + f.skip(a.len() as int));
    }
}

// ---------------------------------------------------------------------------
// Blanks between printed tokens
// ---------------------------------------------------------------------------

/// Blanks the printer writes between tokens.
pub open spec fn blank(c: char) -> bool {
    c == ' ' || c == '\n'
}

/// A token (or the end of input) starts at `f`: nothing there that reading
/// would skip as a blank or a comment.
pub open spec fn token_start(s: Seq<char>, f: int) -> bool {
    f == s.len() || (0 <= f < s.len() && !is_ws(s[f]) && s[f] != '#' && !(s[f] == '/' && at(
        s,
        f + 1,
        '/',
    )))
}

/// Only blanks stand between `e` and the token at `f`.
pub open spec fn gap(s: Seq<char>, e: int, f: int) -> bool {
    &&& 0 <= e <= f <= s.len()
    &&& forall|i: int| e <= i < f ==> #[trigger] blank(s[i])
    &&& token_start(s, f)
}

pub(crate) proof fn lemma_gap_skip(s: Seq<char>, e: int, f: int, r: int)
    requires
        gap(s, e, f),
        e <= r <= f,
    ensures
        skip_ws(s, r) == f,
    decreases f - r,
{
    if r < f {
        assert(blank(s[r]));
        lemma_gap_skip(s, e, f, r + 1);
    }
}

// ---------------------------------------------------------------------------
// Number literals as tokens
// ---------------------------------------------------------------------------

pub open spec fn float_char(c: char) -> bool {
    is_digit(c) || c == '.' || c == '+' || c == '-' || ('a' <= c && c <= 'z') || ('A' <= c && c
        <= 'Z')
}

proof fn lemma_special_chars(t: Seq<char>)
    requires
        is_special(t),
    ensures
        t.len() >= 3,
        forall|i: int| 0 <= i < t.len() ==> #[trigger] float_char(t[i]),
        t[0] == 'n' ==> t[1] != 'u',
        t[0] != 't' && t[0] != 'f',
{
    reveal_strlit("inf");
    reveal_strlit("infinity");
    reveal_strlit("nan");
    let k = sign_len(t);
    let u = t.skip(k);
    assert forall|i: int| 0 <= i < t.len() implies #[trigger] float_char(t[i]) by {
        if i >= k {
            assert(u[i - k] == t[i]);
            if ci_eq(u, "inf"@) {
                assert(ci_char(u[i - k], "inf"@[i - k]));
            } else if ci_eq(u, "infinity"@) {
                assert(ci_char(u[i - k], "infinity"@[i - k]));
            } else {
                assert(ci_char(u[i - k], "nan"@[i - k]));
            }
        }
    }
    if ci_eq(u, "inf"@) {
        assert(ci_char(u[0], "inf"@[0]));
        assert(ci_char(u[1], "inf"@[1]));
    } else if ci_eq(u, "infinity"@) {
        assert(ci_char(u[0], "infinity"@[0]));
        assert(ci_char(u[1], "infinity"@[1]));
    } else {
        assert(ci_char(u[0], "nan"@[0]));
        assert(ci_char(u[1], "nan"@[1]));
    }
}

proof fn lemma_decimal_chars(t: Seq<char>)
    requires
        is_decimal_literal(t),
    ensures
        t.len() >= 1,
        forall|i: int| 0 <= i < t.len() ==> #[trigger] float_char(t[i]),
        is_digit(t[0]) || t[0] == '.' || t[0] == '+' || t[0] == '-',
{
    let k = sign_len(t);
    let ie = int_end(t);
    lemma_digits_end(t, k);
    let me = mantissa_end(t);
    if has_point(t) {
        lemma_digits_end(t, ie + 1);
    }
    assert(mantissa_digits(t).len() == (ie - k) + frac_digits(t).len());
    if me < t.len() {
        let es = exp_digits_start(t);
        lemma_digits_end(t, es);
    }
    assert forall|i: int| 0 <= i < t.len() implies #[trigger] float_char(t[i]) by {
        if i < k {
        } else if i < ie {
        } else if has_point(t) && i == ie {
        } else if i < me {
        } else if i == me {
        } else if i < exp_digits_start(t) {
        } else {
        }
    }
}

/// A number literal is a token of its own: made of digits, signs, points and
/// letters, and not starting like anything else a value can start with.
pub(crate) proof fn lemma_float_token(t: Seq<char>)
    requires
        is_float_literal(t),
    ensures
        t.len() >= 1,
        forall|i: int| 0 <= i < t.len() ==> #[trigger] float_char(t[i]),
        t[0] != 't' && t[0] != 'f',
        t[0] == 'n' ==> t.len() >= 2 && t[1] != 'u',
{
    if is_special(t) {
        lemma_special_chars(t);
    } else {
        lemma_decimal_chars(t);
    }
}

pub(crate) proof fn lemma_float_trim(t: Seq<char>)
    requires
        is_float_literal(t),
    ensures
        trim(t) == t,
        trim(t.push(' ')) == t,
{
    lemma_float_token(t);
    assert(float_char(t[0]));
    assert(float_char(t[t.len() - 1]));
    assert(trim_start(t) == t);
    assert(trim_end(t) == t);
    let tp = t.push(' ');
    assert(tp[0] == t[0]);
    assert(trim_start(tp) == tp);
    assert(tp.drop_last() =~= t);
    assert(trim_end(tp) == trim_end(t));
}

pub(crate) proof fn lemma_bare_scan_inside(s: Seq<char>, p: int, t: Seq<char>, i: int)
    requires
        mat(s, p, t),
        is_float_literal(t),
        p <= i <= p + t.len(),
    ensures
        scan(s, i, Stop::BareEnd) == scan(s, p + t.len(), Stop::BareEnd),
    decreases p + t.len() - i,
{
    if i < p + t.len() {
        lemma_float_token(t);
        lemma_mat_char(s, p, t, i - p);
        assert(float_char(t[i - p]));
        assert(!stops(Stop::BareEnd, s, i));
        lemma_bare_scan_inside(s, p, t, i + 1);
    }
}

pub open spec fn conf_end_char(c: char) -> bool {
    is_ws(c) || c == ',' || c == '}' || c == ']'
}

/// A confidence `~c` at `q`, ended by a blank, `,`, `}`, `]` or the end of input.
pub(crate) proof fn lemma_conf_some(s: Seq<char>, q: int, c: Seq<char>)
    requires
        at(s, q, '~'),
        mat(s, q + 1, c),
        is_float_literal(c),
        in_unit_interval(c),
        q + 1 + c.len() == s.len() || conf_end_char(s[q + 1 + c.len()]),
    ensures
        conf_at(s, q) == Ok::<(Option<Seq<char>>, int), (Seq<char>, int)>((Some(c), q + 1 + c.len())),
{
    lemma_float_token(c);
    lemma_mat_char(s, q + 1, c, 0);
    assert(float_char(c[0]));
    assert(ws_end(s, q + 1) == q + 1);
    assert forall|i: int| q + 1 <= i <= q + 1 + c.len() implies scan(s, i, Stop::ConfidenceEnd)
        == q + 1 + c.len() by {
        lemma_conf_scan(s, q, c, i);
    }
    assert(s.subrange(q + 1, q + 1 + c.len()) == c);
}

proof fn lemma_conf_scan(s: Seq<char>, q: int, c: Seq<char>, i: int)
    requires
        mat(s, q + 1, c),
        is_float_literal(c),
        q + 1 + c.len() == s.len() || conf_end_char(s[q + 1 + c.len()]),
        q + 1 <= i <= q + 1 + c.len(),
    ensures
        scan(s, i, Stop::ConfidenceEnd) == q + 1 + c.len(),
    decreases q + 1 + c.len() - i,
{
    if i < q + 1 + c.len() {
        lemma_float_token(c);
        lemma_mat_char(s, q + 1, c, i - q - 1);
        assert(float_char(c[i - q - 1]));
        lemma_conf_scan(s, q, c, i + 1);
    }
}

} // verus!
