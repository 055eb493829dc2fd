//! What the reader makes of its input, stated without its own definitions:
//! which characters are blanks, what a quoted string and a bare key read as,
//! and which confidence literals lie in `[0, 1]`.
use vstd::prelude::*;

use vstd::arithmetic::power::{lemma_pow_adds, lemma_pow_positive, pow};

use crate::grammar::{
    ann_at, arr_at, at, conf_at, cson_version, doc_at, kv_at, meta_at, obj_at, props_at,
    trail_anns, DocState, trim_quotes, trim_quotes_end, trim_quotes_start, key_at, keyword_at, lemma_scan, lemma_skip_ws, qbody, qstr, scan, skip_comment, skip_ws, trim,
    trim_end, trim_start, val_at, Stop,
};
use crate::model::{assoc_get, assoc_insert, has_key, key_text, SAnnotation, SKey, SNode, SValue};
use crate::number::{
    exponent_value, frac_digits, in_unit_interval, is_negative, is_special, mantissa_digits,
    ci_char, ci_eq, digit_value, digits_end, digits_value, exp_digits_start, exponent_ok, has_exponent, has_point,
    int_end, is_decimal_literal, is_digit, is_float_literal, mantissa_end, pow10, sign_len,
};
use crate::text::{alnum, decimal, digit_char, is_ws, line_col};

verus! {

// ---------------------------------------------------------------------------
// Blanks
// ---------------------------------------------------------------------------

/// The blanks are exactly the characters with the Unicode `White_Space`
/// property, which `char::is_whitespace` accepts and `str::trim` removes.
pub proof fn law_blanks_are_unicode_white_space(c: char)
    ensures
        is_ws(c) <==> (c == '\t' || c == '\n' || c == '\u{b}' || c == '\u{c}' || c == '\r' || c
            == ' ' || c == '\u{85}' || c == '\u{a0}' || c == '\u{1680}' || c == '\u{2000}' || c
            == '\u{2001}' || c == '\u{2002}' || c == '\u{2003}' || c == '\u{2004}' || c
            == '\u{2005}' || c == '\u{2006}' || c == '\u{2007}' || c == '\u{2008}' || c
            == '\u{2009}' || c == '\u{200a}' || c == '\u{2028}' || c == '\u{2029}' || c
            == '\u{202f}' || c == '\u{205f}' || c == '\u{3000}'),
{
}

/// A space, tab, carriage return or newline between tokens is skipped: the
/// reader at it goes on where it would go on from the next character.
pub proof fn law_blank_is_skipped(s: Seq<char>, p: int)
    requires
        0 <= p < s.len(),
        s[p] == ' ' || s[p] == '\t' || s[p] == '\r' || s[p] == '\n',
    ensures
        skip_ws(s, p) == skip_ws(s, p + 1),
{
}

proof fn lemma_trim_start_push(t: Seq<char>, c: char)
    ensures
        trim_start(t.push(c)) == (if trim_start(t).len() == 0 && is_ws(c) {
            Seq::<char>::empty()
        } else {
            trim_start(t).push(c)
        }),
    decreases t.len(),
{
    if t.len() == 0 {
        assert(t.push(c) =~= seq![c]);
        assert(trim_start(t) == t);
        if is_ws(c) {
            assert(seq![c].drop_first() =~= Seq::<char>::empty());
            assert(trim_start(seq![c]) == trim_start(Seq::<char>::empty()));
            assert(trim_start(Seq::<char>::empty()) == Seq::<char>::empty());
        } else {
            assert(trim_start(seq![c]) == seq![c]);
            assert(t.push(c) == seq![c]);
        }
    } else {
        assert(t.push(c)[0] == t[0]);
        assert(t.push(c).len() > 0);
        if is_ws(t[0]) {
            assert(t.push(c).drop_first() =~= t.drop_first().push(c));
            lemma_trim_start_push(t.drop_first(), c);
            assert(trim_start(t.push(c)) == trim_start(t.push(c).drop_first()));
            assert(trim_start(t) == trim_start(t.drop_first()));
        } else {
            assert(trim_start(t) == t);
            assert(trim_start(t.push(c)) == t.push(c));
        }
    }
}

/// Trimming ignores a space, tab, carriage return or newline at either end:
/// `a: 1\r` reads the value `1`, as `a: 1` does.
pub proof fn law_trim_ignores_blank_ends(t: Seq<char>, c: char)
    requires
        c == ' ' || c == '\t' || c == '\r' || c == '\n',
    ensures
        trim(t.push(c)) == trim(t),
        trim(seq![c] + t) == trim(t),
{
    lemma_trim_start_push(t, c);
    let u = trim_start(t);
    if u.len() > 0 {
        assert(u.push(c).drop_last() =~= u);
    } else {
        assert(trim_end(Seq::<char>::empty()) == Seq::<char>::empty());
    }
    assert((seq![c] + t).drop_first() =~= t);
}

// ---------------------------------------------------------------------------
// Quoted strings
// ---------------------------------------------------------------------------

/// Text that a quoted string holds as it stands: no `"` and no `\`.
pub open spec fn plain_text(t: Seq<char>) -> bool {
    forall|i: int| 0 <= i < t.len() ==> #[trigger] t[i] != '"' && t[i] != '\\'
}

proof fn lemma_qbody_plain(s: Seq<char>, q: int, acc: Seq<char>, n: int)
    requires
        0 <= q,
        0 <= n,
        q + n <= s.len(),
        forall|i: int| q <= i < q + n ==> #[trigger] s[i] != '"' && s[i] != '\\',
    ensures
        qbody(s, q, acc) == qbody(s, q + n, acc + s.subrange(q, q + n)),
    decreases n,
{
    if n > 0 {
        lemma_qbody_plain(s, q + 1, acc.push(s[q]), n - 1);
        assert(acc.push(s[q]) + s.subrange(q + 1, q + n) =~= acc + s.subrange(q, q + n));
    } else {
        assert(acc + s.subrange(q, q) =~= acc);
    }
}

/// A quoted string without escapes reads as its text, and the reader goes on
/// after the closing quote.
pub proof fn law_quoted_plain_text(a: Seq<char>)
    requires
        plain_text(a),
    ensures
        qstr(seq!['"'] + a + seq!['"'], 0) == Ok::<(Seq<char>, int), (Seq<char>, int)>(
            (a, a.len() + 2int),
        ),
{
    let s = seq!['"'] + a + seq!['"'];
    assert forall|i: int| 1 <= i < 1 + a.len() implies #[trigger] s[i] != '"' && s[i] != '\\' by {
        assert(s[i] == a[i - 1]);
    }
    lemma_qbody_plain(s, 1, Seq::empty(), a.len() as int);
    assert(Seq::<char>::empty() + s.subrange(1, 1 + a.len() as int) =~= a);
}

/// An escape inside a quoted string: `\n`, `\r` and `\t` stand for a
/// newline, a carriage return and a tab; a backslash before any other
/// character (`"` and `\` among them) stands for that character.
pub proof fn law_quoted_escape(a: Seq<char>, x: char, b: Seq<char>)
    requires
        plain_text(a),
        plain_text(b),
    ensures
        qstr(seq!['"'] + a + seq!['\\', x] + b + seq!['"'], 0) == Ok::<
            (Seq<char>, int),
            (Seq<char>, int),
        >(
            (
                a.push(
                    if x == 'n' {
                        '\n'
                    } else if x == 'r' {
                        '\r'
                    } else if x == 't' {
                        '\t'
                    } else {
                        x
                    },
                ) + b,
                a.len() + b.len() + 4int,
            ),
        ),
{
    let s = seq!['"'] + a + seq!['\\', x] + b + seq!['"'];
    let la = a.len() as int;
    let lb = b.len() as int;
    assert forall|i: int| 1 <= i < 1 + la implies #[trigger] s[i] != '"' && s[i] != '\\' by {
        assert(s[i] == a[i - 1]);
    }
    assert forall|i: int| 3 + la <= i < 3 + la + lb implies #[trigger] s[i] != '"' && s[i]
        != '\\' by {
        assert(s[i] == b[i - 3 - la]);
    }
    lemma_qbody_plain(s, 1, Seq::empty(), la);
    assert(Seq::<char>::empty() + s.subrange(1, 1 + la) =~= a);
    assert(s[1 + la] == '\\');
    assert(s[2 + la] == x);
    let y = crate::grammar::unescape(x);
    lemma_qbody_plain(s, 3 + la, a.push(y), lb);
    assert(a.push(y) + s.subrange(3 + la, 3 + la + lb) =~= a.push(y) + b);
    assert(s[3 + la + lb] == '"');
}

// ---------------------------------------------------------------------------
// Bare keys
// ---------------------------------------------------------------------------

/// A bare key is the text up to the first `:`, with blanks trimmed at both
/// ends; the reader stops at that `:`. With no `:` left, the key is an error.
pub proof fn law_bare_key(s: Seq<char>, q: int)
    requires
        0 <= q < s.len(),
        s[q] != '"',
    ensures
        key_at(s, q) matches Ok((k, c)) ==> {
            &&& q <= c < s.len()
            &&& s[c] == ':'
            &&& forall|i: int| q <= i < c ==> #[trigger] s[i] != ':'
            &&& k == trim(s.subrange(q, c))
            &&& trim(k) == k
        },
        key_at(s, q) is Err <==> forall|i: int| q <= i < s.len() ==> #[trigger] s[i] != ':',
{
    lemma_scan(s, q, Stop::Char(':'));
    let c = scan(s, q, Stop::Char(':'));
    assert forall|i: int| q <= i < c implies #[trigger] s[i] != ':' by {
        assert(!crate::grammar::stops(Stop::Char(':'), s, i));
    }
    if c < s.len() {
        crate::laws::lemma_trim_twice(s.subrange(q, c));
        assert(key_at(s, q) == Ok::<(Seq<char>, int), (Seq<char>, int)>(
            (trim(s.subrange(q, c)), c),
        ));
    } else {
        assert forall|i: int| q <= i < s.len() implies #[trigger] s[i] != ':' by {
            assert(!crate::grammar::stops(Stop::Char(':'), s, i));
        }
    }
    if key_at(s, q) is Err {
        assert(c >= s.len());
    } else {
        assert(c < s.len());
        assert(s[c] == ':');
    }
}

// ---------------------------------------------------------------------------
// Confidences
// ---------------------------------------------------------------------------

proof fn lemma_pow10_is_pow(n: nat)
    ensures
        pow10(n) == pow(10, n),
    decreases n,
{
    reveal(pow);
    if n > 0 {
        lemma_pow10_is_pow((n - 1) as nat);
    }
}

/// A confidence literal `t` denotes `m × 10^(e − f)`: `m` its digits read as
/// one integer, `f` the number of digits after the point, `e` its exponent,
/// negated by a leading `-`. It is accepted exactly when that value lies in
/// the closed interval `[0, 1]`; compared on integers, `0 <= ±m × 10^(e + k)
/// <= 10^(f + k)` for any `k` that makes both exponents whole. `inf` and
/// `nan` are never accepted.
pub proof fn law_confidence_range(t: Seq<char>)
    ensures
        ({
            let m = digits_value(mantissa_digits(t)) as int;
            let f = frac_digits(t).len() as int;
            let e = exponent_value(t);
            let k = if e < 0 {
                -e
            } else {
                0
            };
            in_unit_interval(t) <==> !is_special(t) && (m == 0 || (!is_negative(t) && m * pow(
                10,
                (e + k) as nat,
            ) <= pow(10, (f + k) as nat)))
        }),
{
    let m = digits_value(mantissa_digits(t)) as int;
    let f = frac_digits(t).len() as int;
    let e = exponent_value(t);
    if e >= f {
        let d = (e - f) as nat;
        lemma_pow10_is_pow(d);
        lemma_pow_adds(10, d, f as nat);
        assert(d + f as nat == e as nat);
        let x = m * pow(10, d);
        let p = pow(10, f as nat);
        lemma_pow_positive(10, f as nat);
        assert(m * pow(10, e as nat) == x * p) by (nonlinear_arith)
            requires
                pow(10, e as nat) == pow(10, d) * p,
                x == m * pow(10, d),
        ;
        assert(x <= 1 <==> x * p <= p) by (nonlinear_arith)
            requires
                p > 0,
        ;
    } else {
        let d = (f - e) as nat;
        lemma_pow10_is_pow(d);
        if e >= 0 {
            lemma_pow_adds(10, d, e as nat);
            assert(d + e as nat == f as nat);
            let r = pow(10, d);
            let q = pow(10, e as nat);
            lemma_pow_positive(10, e as nat);
            assert(m <= r <==> m * q <= r * q) by (nonlinear_arith)
                requires
                    q > 0,
            ;
        } else {
            assert((e + (-e)) as nat == 0);
            assert((f + (-e)) as nat == d);
            reveal(pow);
            assert(pow(10, 0) == 1);
        }
    }
}

// ---------------------------------------------------------------------------
// Comments
// ---------------------------------------------------------------------------

proof fn lemma_comment_body(s: Seq<char>, i: int, e: int)
    requires
        0 <= i <= e <= s.len(),
        forall|j: int| i <= j < e ==> #[trigger] s[j] != '\n',
        e == s.len() || s[e] == '\n',
    ensures
        skip_comment(s, i) == skip_ws(s, e),
    decreases e - i,
{
    if i < e {
        lemma_comment_body(s, i + 1, e);
    }
}

/// A comment, `#` or `//`, runs to the end of its line: the reader at it
/// goes on where it would go on from the newline that ends it (or from the
/// end of the input).
pub proof fn law_comment_runs_to_line_end(s: Seq<char>, p: int, e: int)
    requires
        0 <= p < e <= s.len(),
        s[p] == '#' || (s[p] == '/' && p + 1 < s.len() && s[p + 1] == '/'),
        forall|j: int| p <= j < e ==> #[trigger] s[j] != '\n',
        e == s.len() || s[e] == '\n',
    ensures
        skip_ws(s, p) == skip_ws(s, e),
{
    lemma_comment_body(s, p + 1, e);
}

// ---------------------------------------------------------------------------
// Error positions
// ---------------------------------------------------------------------------

/// Lines and columns count from 1; a newline starts the next line at column
/// 1, and every other character moves one column on.
pub proof fn law_line_col(a: Seq<char>, b: Seq<char>)
    requires
        forall|i: int| 0 <= i < b.len() ==> #[trigger] b[i] != '\n',
    ensures
        line_col(Seq::empty()) == (1int, 1int),
        line_col(a + b) == (line_col(a).0, line_col(a).1 + b.len()),
        line_col(a.push('\n') + b) == (line_col(a).0 + 1, b.len() + 1int),
    decreases b.len(),
{
    if b.len() > 0 {
        let b0 = b.drop_last();
        law_line_col(a, b0);
        assert((a + b).drop_last() =~= a + b0);
        assert((a.push('\n') + b).drop_last() =~= a.push('\n') + b0);
        assert((a + b).last() == b.last());
        assert((a.push('\n') + b).last() == b.last());
    } else {
        assert(a + b =~= a);
        assert(a.push('\n') + b =~= a.push('\n'));
        assert(a.push('\n').drop_last() =~= a);
    }
}

proof fn lemma_digit_char(d: nat)
    requires
        d < 10,
    ensures
        is_digit(digit_char(d)),
        digit_value(digit_char(d)) == d,
        d > 0 ==> digit_char(d) != '0',
{
}

/// A parse error reads `<message> at line <l>, col <c>`, with the line and
/// column of the position where it stands, written in decimal.
pub proof fn law_error_message(msg: Seq<char>, s: Seq<char>, p: int)
    ensures
        crate::text::error_text(msg, s, p) == msg + " at line "@ + decimal(
            line_col(s.take(p)).0 as nat,
        ) + ", col "@ + decimal(line_col(s.take(p)).1 as nat),
{
}

/// Line and column numbers are written in decimal: digits only, no leading
/// zero, and read as a decimal number they give the number back.
pub proof fn law_decimal(n: nat)
    ensures
        decimal(n).len() > 0,
        forall|i: int| 0 <= i < decimal(n).len() ==> #[trigger] is_digit(decimal(n)[i]),
        n > 0 ==> decimal(n)[0] != '0',
        digits_value(decimal(n)) == n,
    decreases n,
{
    if n >= 10 {
        law_decimal(n / 10);
        let d = decimal(n / 10);
        assert(decimal(n).drop_last() =~= d);
        assert forall|i: int| 0 <= i < decimal(n).len() implies #[trigger] is_digit(decimal(n)[i]) by {
            if i < d.len() {
                assert(decimal(n)[i] == d[i]);
            }
        }
        assert(decimal(n)[0] == d[0]);
        lemma_digit_char(n % 10);
        assert(decimal(n).last() == digit_char(n % 10));
        assert(digits_value(decimal(n)) == digits_value(d) * 10 + digit_value(digit_char(n % 10)));
        assert(n == (n / 10) * 10 + n % 10);
    } else {
        assert(decimal(n).drop_last() =~= Seq::<char>::empty());
        lemma_digit_char(n);
        assert(decimal(n).last() == digit_char(n));
        assert(digits_value(Seq::<char>::empty()) == 0);
        assert(digits_value(decimal(n)) == digits_value(decimal(n).drop_last()) * 10
            + digit_value(decimal(n).last()));
    }
}

// ---------------------------------------------------------------------------
// Values
// ---------------------------------------------------------------------------

/// What a value reads as, by its first character: the words `true`, `false`
/// and `null` (not followed by a letter or digit) as the boolean and null they
/// name; a quoted string as its text; and a bare token, trimmed, as a number
/// when `str::parse::<f64>` accepts it and as that text otherwise.
pub proof fn law_value_kinds(s: Seq<char>, p: int)
    requires
        0 <= p <= s.len(),
        skip_ws(s, p) < s.len(),
    ensures
        ({
            let q0 = skip_ws(s, p);
            &&& keyword_at(s, q0, "true"@) ==> (val_at(s, p) matches Ok(((v, _), _)) ==> v
                == SValue::Boolean(true))
            &&& keyword_at(s, q0, "false"@) ==> (val_at(s, p) matches Ok(((v, _), _)) ==> v
                == SValue::Boolean(false))
            &&& keyword_at(s, q0, "null"@) ==> (val_at(s, p) matches Ok(((v, _), _)) ==> v
                == SValue::Null)
            &&& s[q0] == '@' ==> (val_at(s, p) matches Ok(((v, _), _)) ==> (ann_at(s, q0) matches Ok(
                (a, _),
            ) && a.name == "synthesize"@ && v == SValue::Synthesize(
                trim_quotes(crate::grammar::args_text(a.args)),
            )))
            &&& s[q0] == '@' ==> (ann_at(s, q0) matches Ok((a, _)) ==> (a.name != "synthesize"@
                ==> (val_at(s, p) matches Err((m, _)) && m
                == "Only @synthesize is supported as a value annotation"@)))
            &&& s[q0] == '"' ==> (val_at(s, p) matches Ok(((v, _), _)) ==> (qstr(s, q0) matches Ok(
                (t, _),
            ) && v == SValue::Str(t)))
            &&& (s[q0] != '@' && s[q0] != '"' && s[q0] != '{' && s[q0] != '[' && !keyword_at(
                s,
                q0,
                "true"@,
            ) && !keyword_at(s, q0, "false"@) && !keyword_at(s, q0, "null"@)) ==> ({
                let raw = trim(s.subrange(q0, scan(s, q0, Stop::BareEnd)));
                val_at(s, p) matches Ok(((v, _), _)) ==> (if is_float_literal(raw) {
                    v == SValue::Number(raw)
                } else if raw != "true"@ && raw != "false"@ && raw != "null"@ {
                    v == SValue::Str(raw)
                } else {
                    true
                })
            })
        }),
{
    reveal_strlit("true");
    reveal_strlit("false");
    reveal_strlit("null");
    lemma_skip_ws(s, p);
    let q0 = skip_ws(s, p);
    if keyword_at(s, q0, "true"@) {
        assert(s[q0] == "true"@[0]);
    }
    if keyword_at(s, q0, "false"@) {
        assert(s[q0] == "false"@[0]);
    }
    if keyword_at(s, q0, "null"@) {
        assert(s[q0] == "null"@[0]);
    }
}

// ---------------------------------------------------------------------------
// Number literals
// ---------------------------------------------------------------------------

/// A run of decimal digits, possibly empty.
pub open spec fn all_digit_chars(g: Seq<char>) -> bool {
    forall|i: int| 0 <= i < g.len() ==> #[trigger] is_digit(g[i])
}

/// No sign, `+` or `-`.
pub open spec fn sign_text(g: Seq<char>) -> bool {
    g.len() == 0 || g == seq!['+'] || g == seq!['-']
}

proof fn lemma_digits_run(t: Seq<char>, i: int, j: int)
    requires
        0 <= i <= j <= t.len(),
        forall|k: int| i <= k < j ==> #[trigger] is_digit(t[k]),
        j == t.len() || !is_digit(t[j]),
    ensures
        digits_end(t, i) == j,
    decreases j - i,
{
    if i < j {
        lemma_digits_run(t, i + 1, j);
    }
}

/// A decimal literal in the grammar `str::parse::<f64>` documents: a sign,
/// digits `a`, a point and digits `b` (at least one digit in all), then an
/// exponent `e`/`E`, a sign and at least one digit `c`, if any. It reads as a
/// double; its mantissa digits are `a` then `b`, `b` is its fraction, and its
/// exponent is `c` read in decimal, negated by a `-`.
pub proof fn law_decimal_literal(
    sg: Seq<char>,
    a: Seq<char>,
    pt: bool,
    b: Seq<char>,
    ex: bool,
    e: char,
    es: Seq<char>,
    c: Seq<char>,
)
    requires
        sign_text(sg),
        all_digit_chars(a),
        all_digit_chars(b),
        all_digit_chars(c),
        a.len() + b.len() > 0,
        !pt ==> b.len() == 0,
        ex ==> (e == 'e' || e == 'E') && sign_text(es) && c.len() > 0,
    ensures
        ({
            let t = sg + a + (if pt {
                seq!['.']
            } else {
                Seq::empty()
            }) + b + (if ex {
                seq![e] + es + c
            } else {
                Seq::empty()
            });
            &&& is_float_literal(t)
            &&& is_negative(t) <==> sg == seq!['-']
            &&& mantissa_digits(t) == a + b
            &&& frac_digits(t) == b
            &&& exponent_value(t) == (if !ex {
                0
            } else if es == seq!['-'] {
                -(digits_value(c) as int)
            } else {
                digits_value(c) as int
            })
        }),
{
    let pp: Seq<char> = if pt {
        seq!['.']
    } else {
        Seq::empty()
    };
    let xx: Seq<char> = if ex {
        seq![e] + es + c
    } else {
        Seq::empty()
    };
    let t = sg + a + pp + b + xx;
    let ls = sg.len() as int;
    let la = a.len() as int;
    let lp = pp.len() as int;
    let lb = b.len() as int;
    let me = ls + la + lp + lb;
    assert(t.len() == me + xx.len());
    assert forall|i: int| 0 <= i < ls implies t[i] == sg[i] by {}
    assert forall|i: int| ls <= i < ls + la implies #[trigger] t[i] == a[i - ls] by {}
    assert forall|i: int| ls + la + lp <= i < me implies #[trigger] t[i] == b[i - ls - la - lp] by {}
    assert forall|i: int| me <= i < t.len() implies #[trigger] t[i] == xx[i - me] by {}
    if pt {
        assert(t[ls + la] == '.');
    }
    // the sign
    if ls == 0 {
        if la > 0 {
            assert(is_digit(t[0]));
        } else if pt {
            assert(t[0] == '.');
        }
    } else {
        assert(t[0] == sg[0]);
    }
    assert(sign_len(t) == ls);
    assert(!is_special(t)) by {
        reveal_strlit("inf");
        reveal_strlit("infinity");
        reveal_strlit("nan");
        let u = t.skip(ls);
        if la > 0 {
            assert(u[0] == a[0]);
            assert(is_digit(u[0]));
        } else {
            assert(u[0] == '.');
        }
        if ci_eq(u, "inf"@) {
            assert(ci_char(u[0], "inf"@[0]));
        }
        if ci_eq(u, "infinity"@) {
            assert(ci_char(u[0], "infinity"@[0]));
        }
        if ci_eq(u, "nan"@) {
            assert(ci_char(u[0], "nan"@[0]));
        }
    }
    // integer digits
    assert forall|k: int| ls <= k < ls + la implies #[trigger] is_digit(t[k]) by {
        assert(t[k] == a[k - ls]);
    }
    if ls + la < t.len() {
        if pt {
            assert(t[ls + la] == '.');
        } else if lb == 0 && ex {
            assert(t[ls + la] == e);
        }
    }
    lemma_digits_run(t, ls, ls + la);
    assert(int_end(t) == ls + la);
    assert(has_point(t) == pt);
    if pt {
        assert forall|k: int| ls + la + 1 <= k < me implies #[trigger] is_digit(t[k]) by {
            assert(t[k] == b[k - ls - la - 1]);
        }
        if me < t.len() {
            assert(t[me] == e);
        }
        lemma_digits_run(t, ls + la + 1, me);
    }
    assert(mantissa_end(t) == me);
    assert(frac_digits(t) =~= b);
    assert(t.subrange(ls, ls + la) =~= a);
    assert(mantissa_digits(t) =~= a + b);
    if ex {
        let les = es.len() as int;
        assert(t[me] == e);
        if les > 0 {
            assert(t[me + 1] == es[0]);
        } else {
            assert(t[me + 1] == c[0]);
            assert(is_digit(c[0]));
        }
        assert(exp_digits_start(t) == me + 1 + les);
        assert forall|k: int| me + 1 + les <= k < t.len() implies #[trigger] is_digit(t[k]) by {
            assert(t[k] == c[k - me - 1 - les]);
        }
        lemma_digits_run(t, me + 1 + les, t.len() as int);
        assert(t.subrange(exp_digits_start(t), t.len() as int) =~= c);
        assert(has_exponent(t));
        assert(exponent_ok(t));
    } else {
        assert(t.len() == me);
    }
    assert(is_decimal_literal(t));
}

/// What does not read as a number: a sign or a point with no digit, and
/// digits followed by an exponent mark with no digit after it.
pub proof fn law_not_decimal_literal(sg: Seq<char>, d: Seq<char>)
    requires
        sign_text(sg),
        all_digit_chars(d),
        d.len() > 0,
    ensures
        !is_float_literal(sg),
        !is_float_literal(sg + seq!['.']),
        !is_float_literal(sg + d + seq!['e']),
        !is_float_literal(sg + d + seq!['E']),
{
    reveal_strlit("inf");
    reveal_strlit("infinity");
    reveal_strlit("nan");
    let ls = sg.len() as int;
    // a sign alone
    assert(sign_len(sg) == ls);
    assert(sg.skip(ls).len() == 0);
    lemma_digits_run(sg, ls, ls);
    assert(mantissa_digits(sg).len() == 0) by {
        assert(sg.subrange(ls, ls).len() == 0);
    }
    // a sign and a point
    let t1 = sg + seq!['.'];
    assert(t1[ls] == '.');
    if ls > 0 {
        assert(t1[0] == sg[0]);
    }
    assert(sign_len(t1) == ls);
    let u1 = t1.skip(ls);
    assert(u1.len() == 1);
    lemma_digits_run(t1, ls, ls);
    assert(has_point(t1));
    lemma_digits_run(t1, ls + 1, ls + 1);
    assert(mantissa_digits(t1).len() == 0) by {
        assert(t1.subrange(ls, ls).len() == 0);
        assert(frac_digits(t1) =~= t1.subrange(ls + 1, ls + 1));
    }
    // digits and an exponent mark
    let ld = d.len() as int;
    assert forall|x: char| x == 'e' || x == 'E' implies !is_float_literal(#[trigger] (sg + d + seq![x])) by {
        let t2 = sg + d + seq![x];
        assert forall|k: int| ls <= k < ls + ld implies #[trigger] is_digit(t2[k]) by {
            assert(t2[k] == d[k - ls]);
        }
        assert(t2[ls + ld] == x);
        if ls > 0 {
            assert(t2[0] == sg[0]);
            assert(sg[0] == '+' || sg[0] == '-');
        } else {
            assert(t2[0] == d[0]);
            assert(is_digit(d[0]));
        }
        assert(sign_len(t2) == ls);
        lemma_digits_run(t2, ls, ls + ld);
        assert(!has_point(t2));
        assert(mantissa_end(t2) == ls + ld);
        assert(exp_digits_start(t2) >= t2.len());
        let u = t2.skip(ls);
        assert(u[0] == d[0]);
        if ci_eq(u, "inf"@) {
            assert(ci_char(u[0], "inf"@[0]));
        }
        if ci_eq(u, "infinity"@) {
            assert(ci_char(u[0], "infinity"@[0]));
        }
        if ci_eq(u, "nan"@) {
            assert(ci_char(u[0], "nan"@[0]));
        }
    }
    assert(!is_float_literal(sg + d + seq!['e']));
    assert(!is_float_literal(sg + d + seq!['E']));
}

// ---------------------------------------------------------------------------
// Confidences as read
// ---------------------------------------------------------------------------

/// A confidence `~t` after a value, `t` running to the first blank, `,`, `}`
/// or `]`: when `t` reads as a number in `[0, 1]` it is the confidence and
/// the reader goes on after it; when it reads as a number outside `[0, 1]`
/// the document is refused with "Confidence t outside [0.0, 1.0]" at the end
/// of `t`; when it does not read as a number there is no confidence and the
/// reader stays at `~`.
pub proof fn law_confidence_read(s: Seq<char>, p: int, e: int)
    requires
        0 <= p < e <= s.len(),
        s[p] == '~',
        p + 1 == s.len() || (!is_ws(s[p + 1]) && s[p + 1] != '"'),
        forall|i: int|
            p + 1 <= i < e ==> !is_ws(#[trigger] s[i]) && s[i] != ',' && s[i] != '}' && s[i]
                != ']',
        e == s.len() || is_ws(s[e]) || s[e] == ',' || s[e] == '}' || s[e] == ']',
    ensures
        ({
            let t = s.subrange(p + 1, e);
            &&& is_float_literal(t) && in_unit_interval(t) ==> conf_at(s, p) == Ok::<
                (Option<Seq<char>>, int),
                (Seq<char>, int),
            >((Some(t), e))
            &&& is_float_literal(t) && !in_unit_interval(t) ==> conf_at(s, p) == Err::<
                (Option<Seq<char>>, int),
                (Seq<char>, int),
            >(("Confidence "@ + t + " outside [0.0, 1.0]"@, e))
            &&& !is_float_literal(t) ==> conf_at(s, p) == Ok::<
                (Option<Seq<char>>, int),
                (Seq<char>, int),
            >((None, p))
        }),
{
    if p + 1 < s.len() {
        assert(crate::grammar::ws_end(s, p + 1) == p + 1);
    } else {
        assert(crate::grammar::ws_end(s, p + 1) == p + 1);
    }
    assert forall|i: int| p + 1 <= i < e implies !#[trigger] crate::grammar::stops(
        Stop::ConfidenceEnd,
        s,
        i,
    ) by {
        assert(!is_ws(s[i]));
    }
    crate::roundtrip::lemma_scan_to(s, p + 1, Stop::ConfidenceEnd, e);
}

// ---------------------------------------------------------------------------
// Annotations as read
// ---------------------------------------------------------------------------

/// An annotation `@name(args)`: its name is the run of letters, digits and
/// `_` after `@`; when the next token after the name is `(`, its arguments
/// are the text up to the first `)`, as written (a `(` with no `)` after it
/// is refused); otherwise it has none.
pub proof fn law_annotation_name_args(s: Seq<char>, p: int, ne: int, e: int)
    requires
        0 <= p < s.len(),
        s[p] == '@',
        p + 1 <= ne <= s.len(),
        forall|i: int| p + 1 <= i < ne ==> #[trigger] alnum(s[i]) || s[i] == '_',
        ne == s.len() || !(alnum(s[ne]) || s[ne] == '_'),
    ensures
        ann_at(s, p) matches Ok((a, _)) ==> a.name == s.subrange(p + 1, ne),
        !at(s, skip_ws(s, ne), '(') ==> (ann_at(s, p) matches Ok((a, _)) ==> a.args is None),
        ({
            let o = skip_ws(s, ne);
            at(s, o, '(') && o < e < s.len() && s[e] == ')' && (forall|i: int|
                o < i < e ==> #[trigger] s[i] != ')') ==> (ann_at(s, p) matches Ok((a, _))
                ==> a.args == Some(s.subrange(o + 1, e)))
        }),
        ({
            let o = skip_ws(s, ne);
            at(s, o, '(') && (forall|i: int| o < i < s.len() ==> #[trigger] s[i] != ')')
                ==> ann_at(s, p) is Err
        }),
{
    assert forall|i: int| p + 1 <= i < ne implies !#[trigger] crate::grammar::stops(
        Stop::NameEnd,
        s,
        i,
    ) by {
        assert(alnum(s[i]) || s[i] == '_');
    }
    crate::roundtrip::lemma_scan_to(s, p + 1, Stop::NameEnd, ne);
    let o = skip_ws(s, ne);
    lemma_skip_ws(s, ne);
    if at(s, o, '(') {
        lemma_scan(s, o + 1, Stop::Char(')'));
        let c = scan(s, o + 1, Stop::Char(')'));
        if o < e < s.len() && s[e] == ')' && (forall|i: int| o < i < e ==> #[trigger] s[i] != ')') {
            assert forall|i: int| o + 1 <= i < e implies !#[trigger] crate::grammar::stops(
                Stop::Char(')'),
                s,
                i,
            ) by {
                assert(s[i] != ')');
            }
            crate::roundtrip::lemma_scan_to(s, o + 1, Stop::Char(')'), e);
        }
        if forall|i: int| o < i < s.len() ==> #[trigger] s[i] != ')' {
            if c < s.len() {
                assert(s[c] == ')');
            }
        }
    }
}

// ---------------------------------------------------------------------------
// Synthesized values
// ---------------------------------------------------------------------------

/// Only quotes, possibly none.
pub open spec fn all_quotes(q: Seq<char>) -> bool {
    forall|i: int| 0 <= i < q.len() ==> #[trigger] q[i] == '"'
}

proof fn lemma_trim_quotes_start(q: Seq<char>, t: Seq<char>)
    requires
        all_quotes(q),
        t.len() == 0 || t[0] != '"',
    ensures
        trim_quotes_start(q + t) == t,
    decreases q.len(),
{
    if q.len() > 0 {
        assert((q + t)[0] == '"');
        assert((q + t).drop_first() =~= q.drop_first() + t);
        assert forall|i: int| 0 <= i < q.drop_first().len() implies #[trigger] q.drop_first()[i]
            == '"' by {
            assert(q.drop_first()[i] == q[i + 1]);
        }
        lemma_trim_quotes_start(q.drop_first(), t);
    } else {
        assert(q + t =~= t);
    }
}

proof fn lemma_trim_quotes_end(t: Seq<char>, q: Seq<char>)
    requires
        all_quotes(q),
        t.len() == 0 || t.last() != '"',
    ensures
        trim_quotes_end(t + q) == t,
    decreases q.len(),
{
    if q.len() > 0 {
        assert((t + q).last() == '"');
        assert((t + q).drop_last() =~= t + q.drop_last());
        assert forall|i: int| 0 <= i < q.drop_last().len() implies #[trigger] q.drop_last()[i]
            == '"' by {
            assert(q.drop_last()[i] == q[i]);
        }
        lemma_trim_quotes_end(t, q.drop_last());
    } else {
        assert(t + q =~= t);
    }
}

/// `@synthesize(args)` as a value: its text is the arguments with every
/// quote at either end removed; a text that neither starts nor ends with a
/// quote keeps all of its characters, quotes inside included.
pub proof fn law_synthesize_text(q1: Seq<char>, t: Seq<char>, q2: Seq<char>)
    requires
        all_quotes(q1),
        all_quotes(q2),
        t.len() > 0 ==> t[0] != '"' && t.last() != '"',
    ensures
        trim_quotes(q1 + t + q2) == t,
        trim_quotes(q1 + q2) == Seq::<char>::empty(),
{
    assert(all_quotes(q1 + q2)) by {
        assert forall|i: int| 0 <= i < (q1 + q2).len() implies #[trigger] (q1 + q2)[i] == '"' by {
            if i < q1.len() {
                assert((q1 + q2)[i] == q1[i]);
            } else {
                assert((q1 + q2)[i] == q2[i - q1.len()]);
            }
        }
    }
    lemma_trim_quotes_start(q1 + q2, Seq::empty());
    assert(q1 + q2 + Seq::<char>::empty() =~= q1 + q2);
    assert(trim_quotes_end(Seq::<char>::empty()) == Seq::<char>::empty());
    if t.len() > 0 {
        assert((t + q2)[0] == t[0]);
        lemma_trim_quotes_start(q1, t + q2);
        assert(q1 + t + q2 =~= q1 + (t + q2));
        lemma_trim_quotes_end(t, q2);
    } else {
        assert(q1 + t + q2 =~= q1 + q2);
    }
}

// ---------------------------------------------------------------------------
// Annotation properties
// ---------------------------------------------------------------------------

/// Where a reader of properties, pairs or elements goes on after an item
/// that ends at `x`: past the blanks and one `,`, if there is one.
pub open spec fn after_comma(s: Seq<char>, x: int) -> int {
    if at(s, skip_ws(s, x), ',') {
        skip_ws(s, x) + 1
    } else {
        skip_ws(s, x)
    }
}

/// The properties `{ k: v, … }` of an annotation, read from `q` on: a `}`
/// ends them; otherwise the key is the text up to the first `:`, trimmed,
/// and the value either a quoted string (unescaped) or the text up to the
/// first `,` or `}`, trimmed; a key given again replaces the earlier value
/// in its place. With no `:` left the annotation is refused.
pub proof fn law_annotation_property(
    s: Seq<char>,
    q: int,
    acc: Seq<(Seq<char>, Seq<char>)>,
    c: int,
    ve: int,
)
    requires
        0 <= q <= s.len(),
        skip_ws(s, q) < s.len(),
    ensures
        ({
            let q1 = skip_ws(s, q);
            &&& s[q1] == '}' ==> props_at(s, q, acc) == Ok::<
                (Seq<(Seq<char>, Seq<char>)>, int),
                (Seq<char>, int),
            >((acc, q1 + 1))
            &&& s[q1] != '}' && (forall|i: int| q1 <= i < s.len() ==> #[trigger] s[i] != ':')
                ==> props_at(s, q, acc) == Err::<
                (Seq<(Seq<char>, Seq<char>)>, int),
                (Seq<char>, int),
            >(("Missing colon in annotation property"@, q1))
            &&& (s[q1] != '}' && q1 <= c < s.len() && s[c] == ':' && (forall|i: int|
                q1 <= i < c ==> #[trigger] s[i] != ':')) ==> ({
                let k = trim(s.subrange(q1, c));
                let q3 = skip_ws(s, c + 1);
                &&& at(s, q3, '"') ==> (qstr(s, q3) matches Ok((v, q4)) ==> props_at(s, q, acc)
                    == props_at(s, after_comma(s, q4), assoc_insert(acc, k, v)))
                &&& (!at(s, q3, '"') && q3 <= ve <= s.len() && (forall|i: int|
                    q3 <= i < ve ==> #[trigger] s[i] != ',' && s[i] != '}') && (ve == s.len()
                    || s[ve] == ',' || s[ve] == '}')) ==> props_at(s, q, acc) == props_at(
                    s,
                    after_comma(s, ve),
                    assoc_insert(acc, k, trim(s.subrange(q3, ve))),
                )
            })
        }),
{
    let q1 = skip_ws(s, q);
    lemma_skip_ws(s, q);
    if s[q1] != '}' {
        lemma_scan(s, q1, Stop::Char(':'));
        let sc = scan(s, q1, Stop::Char(':'));
        if forall|i: int| q1 <= i < s.len() ==> #[trigger] s[i] != ':' {
            if sc < s.len() {
                assert(s[sc] == ':');
            }
        }
        if q1 <= c < s.len() && s[c] == ':' && (forall|i: int| q1 <= i < c ==> #[trigger] s[i]
            != ':') {
            assert forall|i: int| q1 <= i < c implies !#[trigger] crate::grammar::stops(
                Stop::Char(':'),
                s,
                i,
            ) by {
                assert(s[i] != ':');
            }
            crate::roundtrip::lemma_scan_to(s, q1, Stop::Char(':'), c);
            let q3 = skip_ws(s, c + 1);
            lemma_skip_ws(s, c + 1);
            if !at(s, q3, '"') && q3 <= ve <= s.len() && (forall|i: int|
                q3 <= i < ve ==> #[trigger] s[i] != ',' && s[i] != '}') && (ve == s.len() || s[ve]
                == ',' || s[ve] == '}') {
                assert forall|i: int| q3 <= i < ve implies !#[trigger] crate::grammar::stops(
                    Stop::PropValueEnd,
                    s,
                    i,
                ) by {
                    assert(s[i] != ',' && s[i] != '}');
                }
                crate::roundtrip::lemma_scan_to(s, q3, Stop::PropValueEnd, ve);
            }
        }
    }
}

// ---------------------------------------------------------------------------
// Objects and arrays
// ---------------------------------------------------------------------------

/// The stored text of a key: an exact key as it is, a semantic key as `~`
/// and its text.
pub proof fn law_key_text(t: Seq<char>)
    ensures
        key_text(SKey::Exact(t)) == t,
        key_text(SKey::Semantic(t)) == seq!['~'] + t,
{
}

/// The pairs of an object `{ … }`, read from `q` on: a `}` closes it with the
/// pairs read so far; the end of input leaves it unclosed; a pair whose key
/// is already held is refused with "Duplicate key: k" after the pair; any
/// other pair is added after the others, and the reader goes on past one
/// `,` if there is one.
pub proof fn law_object_step(s: Seq<char>, q: int, acc: Seq<(Seq<char>, SNode)>)
    requires
        0 <= q <= s.len(),
    ensures
        ({
            let q1 = skip_ws(s, q);
            &&& q1 >= s.len() ==> obj_at(s, q, acc) == Err::<(SValue, int), (Seq<char>, int)>(
                ("Unclosed object"@, q1),
            )
            &&& q1 < s.len() && s[q1] == '}' ==> obj_at(s, q, acc) == Ok::<
                (SValue, int),
                (Seq<char>, int),
            >((SValue::Object(acc), q1 + 1))
            &&& q1 < s.len() && s[q1] != '}' ==> (kv_at(s, q1) matches Ok(
                (Some((k, n)), q2),
            ) ==> (q2 > q1 ==> (if has_key(acc, key_text(k)) {
                obj_at(s, q, acc) == Err::<(SValue, int), (Seq<char>, int)>(
                    ("Duplicate key: "@ + key_text(k), q2),
                )
            } else {
                obj_at(s, q, acc) == obj_at(s, after_comma(s, q2), acc.push((key_text(k), n)))
            })))
        }),
{
    lemma_skip_ws(s, q);
}

/// The elements of an array `[ … ]`, read from `q` on: a `]` closes it with
/// the elements read so far; the end of input leaves it unclosed; an element
/// (its value, confidence and trailing annotations) is added after the
/// others and must be followed by `,` or `]`, else the array is refused with
/// "Expected ',' or ']' in array" where the next token stands.
pub proof fn law_array_step(s: Seq<char>, q: int, acc: Seq<SNode>)
    requires
        0 <= q <= s.len(),
    ensures
        ({
            let q1 = skip_ws(s, q);
            &&& q1 >= s.len() ==> arr_at(s, q, acc) == Err::<(SValue, int), (Seq<char>, int)>(
                ("Unclosed array"@, q1),
            )
            &&& q1 < s.len() && s[q1] == ']' ==> arr_at(s, q, acc) == Ok::<
                (SValue, int),
                (Seq<char>, int),
            >((SValue::Array(acc), q1 + 1))
            &&& q1 < s.len() && s[q1] != ']' ==> (val_at(s, q1) matches Ok(((v, c), q2)) ==> (
            trail_anns(s, q2, Seq::empty()) matches Ok((anns, q3)) ==> ({
                let q4 = skip_ws(s, q3);
                let n = SNode { value: v, confidence: c, annotations: anns };
                &&& at(s, q4, ',') ==> arr_at(s, q, acc) == arr_at(s, q4 + 1, acc.push(n))
                &&& q1 < q4 < s.len() && s[q4] == ']' ==> arr_at(s, q, acc) == arr_at(
                    s,
                    q4,
                    acc.push(n),
                )
                &&& q1 < q4 < s.len() && s[q4] != ',' && s[q4] != ']' ==> arr_at(s, q, acc)
                    == Err::<(SValue, int), (Seq<char>, int)>(
                    ("Expected ',' or ']' in array"@, q4),
                )
            })))
        }),
{
    let q1 = skip_ws(s, q);
    lemma_skip_ws(s, q);
    if q1 < s.len() && s[q1] != ']' {
        crate::grammar::lemma_val_progress(s, q1);
        if let Ok(((v, c), q2)) = val_at(s, q1) {
            crate::grammar::lemma_trail_anns(s, q2, Seq::empty());
            if let Ok((anns, q3)) = trail_anns(s, q2, Seq::empty()) {
                lemma_skip_ws(s, q3);
            }
        }
    }
}

// ---------------------------------------------------------------------------
// Pairs and documents
// ---------------------------------------------------------------------------

/// A pair `key: value` after blanks: a leading `~` makes the key semantic;
/// the key must be followed (after blanks) by `:`, else the pair is refused
/// with "Expected ':' after key"; then come the value and its metadata,
/// which make the pair's node.
pub proof fn law_pair(s: Seq<char>, p: int)
    requires
        0 <= p <= s.len(),
        skip_ws(s, p) < s.len(),
    ensures
        ({
            let q0 = skip_ws(s, p);
            let sem = s[q0] == '~';
            let q1 = if sem {
                q0 + 1
            } else {
                q0
            };
            &&& (s[q0] == '[' || s[q0] == '@' || s[q0] == '}' || s[q0] == ']') ==> kv_at(s, p)
                == Ok::<(Option<(SKey, SNode)>, int), (Seq<char>, int)>((None, q0))
            &&& !(s[q0] == '[' || s[q0] == '@' || s[q0] == '}' || s[q0] == ']') ==> (key_at(
                s,
                q1,
            ) matches Ok((kt, q2)) ==> ({
                let q3 = skip_ws(s, q2);
                &&& !at(s, q3, ':') ==> kv_at(s, p) == Err::<
                    (Option<(SKey, SNode)>, int),
                    (Seq<char>, int),
                >(("Expected ':' after key"@, q3))
                &&& at(s, q3, ':') ==> (val_at(s, skip_ws(s, q3 + 1)) matches Ok(((v, c), q4))
                    ==> (meta_at(s, q4, c, Seq::empty()) matches Ok(((c2, anns), q5)) ==> kv_at(
                    s,
                    p,
                ) == Ok::<(Option<(SKey, SNode)>, int), (Seq<char>, int)>(
                    (
                        Some(
                            (
                                if sem {
                                    SKey::Semantic(kt)
                                } else {
                                    SKey::Exact(kt)
                                },
                                SNode { value: v, confidence: c2, annotations: anns },
                            ),
                        ),
                        q5,
                    ),
                )))
            }))
        }),
{
    lemma_skip_ws(s, p);
}

/// What follows a value in a pair, in any order: annotations, kept in the
/// order written, and at most one confidence; a second confidence refuses
/// the node with "Duplicate confidence on a node".
pub proof fn law_metadata(s: Seq<char>, q: int, c: Option<Seq<char>>, anns: Seq<SAnnotation>)
    requires
        0 <= q <= s.len(),
    ensures
        ({
            let q1 = skip_ws(s, q);
            &&& q1 >= s.len() ==> meta_at(s, q, c, anns) == Ok::<
                ((Option<Seq<char>>, Seq<SAnnotation>), int),
                (Seq<char>, int),
            >(((c, anns), q1))
            &&& q1 < s.len() && s[q1] == '@' ==> (ann_at(s, q1) matches Ok((a, q2)) ==> meta_at(
                s,
                q,
                c,
                anns,
            ) == meta_at(s, q2, c, anns.push(a)))
            &&& q1 < s.len() && s[q1] != '@' ==> (conf_at(s, q1) matches Ok((Some(x), q2)) ==> (
            if c is Some {
                meta_at(s, q, c, anns) == Err::<
                    ((Option<Seq<char>>, Seq<SAnnotation>), int),
                    (Seq<char>, int),
                >(("Duplicate confidence on a node"@, q2))
            } else {
                meta_at(s, q, c, anns) == meta_at(s, q2, Some(x), anns)
            }))
            &&& q1 < s.len() && s[q1] != '@' ==> (conf_at(s, q1) matches Ok((None, _)) ==> meta_at(
                s,
                q,
                c,
                anns,
            ) == Ok::<((Option<Seq<char>>, Seq<SAnnotation>), int), (Seq<char>, int)>(
                ((c, anns), q1),
            ))
        }),
{
    lemma_skip_ws(s, q);
}

/// The version an `@cson` line declares: its `version` property, else its
/// argument with the quotes at its ends removed, else the version so far.
pub proof fn law_cson_version(a: SAnnotation, v: Seq<char>)
    ensures
        assoc_get(a.properties, "version"@) matches Some(x) ==> cson_version(a, v) == x,
        assoc_get(a.properties, "version"@) is None ==> (a.args matches Some(t) ==> cson_version(
            a,
            v,
        ) == trim_quotes(t)),
        assoc_get(a.properties, "version"@) is None && a.args is None ==> cson_version(a, v) == v,
{
}

/// The document reader at an annotation: `@cson` sets the version, and any
/// other annotation waits, after those before it, for the next pair (or, if
/// none comes, belongs to the root). At `[`, the text up to the first `]`,
/// trimmed, names the section that the next pairs go into; with no `]` the
/// document is refused with "Unclosed section". A `}` or `]` where a pair
/// should start is refused with "Unexpected character in document".
pub proof fn law_document_step(s: Seq<char>, q: int, st: DocState, e: int)
    requires
        0 <= q < s.len(),
        skip_ws(s, q) < s.len(),
    ensures
        ({
            let q1 = skip_ws(s, q);
            &&& s[q1] == '[' && q1 < e < s.len() && s[e] == ']' && (forall|i: int|
                q1 < i < e ==> #[trigger] s[i] != ']') ==> doc_at(s, q, st) == doc_at(
                s,
                e + 1,
                DocState { section: Some(trim(s.subrange(q1 + 1, e))), ..st },
            )
            &&& s[q1] == '[' && (forall|i: int| q1 < i < s.len() ==> #[trigger] s[i] != ']')
                ==> doc_at(s, q, st) == Err::<(crate::model::SDocument, int), (Seq<char>, int)>(
                ("Unclosed section"@, q1 + 1),
            )
            &&& s[q1] == '@' ==> (ann_at(s, q1) matches Ok((a, q2)) ==> (if a.name == "cson"@ {
                doc_at(s, q, st) == doc_at(s, q2, DocState { version: cson_version(a, st.version), ..st })
            } else {
                doc_at(s, q, st) == doc_at(s, q2, DocState { pending: st.pending.push(a), ..st })
            }))
            &&& (s[q1] == '}' || s[q1] == ']') ==> (doc_at(s, q, st) matches Err((m, _)) && m
                == "Unexpected character in document"@)
        }),
{
    let q1 = skip_ws(s, q);
    lemma_skip_ws(s, q);
    if s[q1] == '[' {
        lemma_scan(s, q1 + 1, Stop::Char(']'));
        let c = scan(s, q1 + 1, Stop::Char(']'));
        if q1 < e < s.len() && s[e] == ']' && (forall|i: int| q1 < i < e ==> #[trigger] s[i] != ']') {
            assert forall|i: int| q1 + 1 <= i < e implies !#[trigger] crate::grammar::stops(
                Stop::Char(']'),
                s,
                i,
            ) by {
                assert(s[i] != ']');
            }
            crate::roundtrip::lemma_scan_to(s, q1 + 1, Stop::Char(']'), e);
        }
        if forall|i: int| q1 < i < s.len() ==> #[trigger] s[i] != ']' {
            if c < s.len() {
                assert(s[c] == ']');
            }
        }
    }
    if s[q1] == '}' || s[q1] == ']' {
        crate::roundtrip::lemma_skip_ws_fix(s, q);
        assert(skip_ws(s, q1) == q1);
        assert(kv_at(s, q1) == Ok::<(Option<(SKey, SNode)>, int), (Seq<char>, int)>((None, q1)));
    }
}

/// The document reader at a pair: the annotations waiting go after the
/// pair's own; outside a section the pair is added to the root after the
/// others (a key already held is refused with "Duplicate key: k"); inside
/// section `sec` it is added to the object under `sec` (created when
/// missing), as `section_add` says.
pub proof fn law_document_pair(s: Seq<char>, q: int, st: DocState)
    requires
        0 <= q < s.len(),
        skip_ws(s, q) < s.len(),
        s[skip_ws(s, q)] != '@' && s[skip_ws(s, q)] != '[',
    ensures
        kv_at(s, skip_ws(s, q)) matches Ok((Some((k, n)), q2)) ==> ({
            let n2 = SNode { annotations: n.annotations + st.pending, ..n };
            let kt = key_text(k);
            match st.section {
                None => if has_key(st.root, kt) {
                    doc_at(s, q, st) == Err::<(crate::model::SDocument, int), (Seq<char>, int)>(
                        ("Duplicate key: "@ + kt, q2),
                    )
                } else {
                    doc_at(s, q, st) == doc_at(
                        s,
                        q2,
                        DocState { root: st.root.push((kt, n2)), pending: Seq::empty(), ..st },
                    )
                },
                Some(sec) => match crate::grammar::section_add(st.root, sec, kt, n2) {
                    Err(dup) => doc_at(s, q, st) == Err::<
                        (crate::model::SDocument, int),
                        (Seq<char>, int),
                    >(("Duplicate key: "@ + dup, q2)),
                    Ok(root2) => doc_at(s, q, st) == doc_at(
                        s,
                        q2,
                        DocState { root: root2, pending: Seq::empty(), ..st },
                    ),
                },
            }
        }),
{
    lemma_skip_ws(s, q);
}

} // verus!
