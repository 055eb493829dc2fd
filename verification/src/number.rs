//! Number literals: which bare tokens read as a double, and which confidence
//! literals denote a value in `[0, 1]`.
//!
//! A token reads as a number exactly when `str::parse::<f64>` accepts it, which
//! std documents by this grammar (ASCII case-insensitive):
//!
//! ```text
//! Float  ::= Sign? ( 'inf' | 'infinity' | 'nan' | Number )
//! Number ::= ( Digit+ | Digit+ '.' Digit* | Digit* '.' Digit+ ) Exp?
//! Exp    ::= 'e' Sign? Digit+
//! Sign   ::= [+-]
//! Digit  ::= [0-9]
//! ```
use vstd::prelude::*;

verus! {

pub open spec fn is_digit(c: char) -> bool {
    '0' <= c && c <= '9'
}

pub open spec fn digit_value(c: char) -> nat {
    (c as int - '0' as int) as nat
}

/// The value of a run of decimal digits, most significant first.
pub open spec fn digits_value(d: Seq<char>) -> nat
    decreases d.len(),
{
    if d.len() == 0 {
        0
    } else {
        digits_value(d.drop_last()) * 10 + digit_value(d.last())
    }
}

/// `c` equals the lower-case ASCII letter or symbol `w`, ignoring ASCII case.
pub open spec fn ci_char(c: char, w: char) -> bool {
    c == w || ('a' <= w && w <= 'z' && c as int == w as int - 32)
}

pub open spec fn ci_eq(t: Seq<char>, w: Seq<char>) -> bool {
    t.len() == w.len() && forall|i: int| 0 <= i < t.len() ==> #[trigger] ci_char(t[i], w[i])
}

/// The end of the run of digits that starts at `i`.
pub open spec fn digits_end(t: Seq<char>, i: int) -> int
    decreases t.len() - i,
{
    if 0 <= i < t.len() && is_digit(t[i]) {
        digits_end(t, i + 1)
    } else {
        i
    }
}

pub open spec fn sign_len(t: Seq<char>) -> int {
    if t.len() > 0 && (t[0] == '+' || t[0] == '-') {
        1
    } else {
        0
    }
}

/// `inf`, `infinity` or `nan`, with an optional sign.
pub open spec fn is_special(t: Seq<char>) -> bool {
    let u = t.skip(sign_len(t));
    ci_eq(u, "inf"@) || ci_eq(u, "infinity"@) || ci_eq(u, "nan"@)
}

/// End of the integer digits.
pub open spec fn int_end(t: Seq<char>) -> int {
    digits_end(t, sign_len(t))
}

pub open spec fn has_point(t: Seq<char>) -> bool {
    int_end(t) < t.len() && t[int_end(t)] == '.'
}

/// End of the mantissa (integer digits, point and fraction digits).
pub open spec fn mantissa_end(t: Seq<char>) -> int {
    if has_point(t) {
        digits_end(t, int_end(t) + 1)
    } else {
        int_end(t)
    }
}

/// The fraction digits.
pub open spec fn frac_digits(t: Seq<char>) -> Seq<char> {
    if has_point(t) {
        t.subrange(int_end(t) + 1, mantissa_end(t))
    } else {
        Seq::empty()
    }
}

/// All mantissa digits, the point left out.
pub open spec fn mantissa_digits(t: Seq<char>) -> Seq<char> {
    t.subrange(sign_len(t), int_end(t)) + frac_digits(t)
}

/// Start of the exponent digits, after `e` and its optional sign.
pub open spec fn exp_digits_start(t: Seq<char>) -> int {
    let b = mantissa_end(t);
    if b + 1 < t.len() && (t[b + 1] == '+' || t[b + 1] == '-') {
        b + 2
    } else {
        b + 1
    }
}

pub open spec fn has_exponent(t: Seq<char>) -> bool {
    mantissa_end(t) < t.len()
}

pub open spec fn exponent_ok(t: Seq<char>) -> bool {
    let b = mantissa_end(t);
    b == t.len() || ((t[b] == 'e' || t[b] == 'E') && exp_digits_start(t) < t.len() && digits_end(
        t,
        exp_digits_start(t),
    ) == t.len())
}

pub open spec fn is_decimal_literal(t: Seq<char>) -> bool {
    mantissa_digits(t).len() > 0 && exponent_ok(t)
}

/// Whether `str::parse::<f64>` accepts `t`.
pub open spec fn is_float_literal(t: Seq<char>) -> bool {
    is_special(t) || is_decimal_literal(t)
}

/// The signed decimal exponent of a decimal literal (0 when there is none).
pub open spec fn exponent_value(t: Seq<char>) -> int {
    if has_exponent(t) {
        let e = digits_value(t.subrange(exp_digits_start(t), t.len() as int)) as int;
        if t[mantissa_end(t) + 1] == '-' {
            -e
        } else {
            e
        }
    } else {
        0
    }
}

pub open spec fn is_negative(t: Seq<char>) -> bool {
    t.len() > 0 && t[0] == '-'
}

/// A decimal literal denotes `m * 10^(e - f)`, with `m` its mantissa digits read
/// as an integer, `f` the number of fraction digits and `e` the exponent. It
/// lies in `[0, 1]` when `m` is zero (`-0` included), or when it is positive and
/// `m * 10^(e - f) <= 1`. `inf` and `nan` do not.
pub open spec fn in_unit_interval(t: Seq<char>) -> bool {
    let m = digits_value(mantissa_digits(t));
    let f = frac_digits(t).len() as int;
    let e = exponent_value(t);
    !is_special(t) && (m == 0 || (!is_negative(t) && (if e >= f {
        m * pow10((e - f) as nat) <= 1
    } else {
        m <= pow10((f - e) as nat)
    })))
}

pub open spec fn pow10(n: nat) -> nat
    decreases n,
{
    if n == 0 {
        1
    } else {
        10 * pow10((n - 1) as nat)
    }
}

// ---------------------------------------------------------------------------
// Facts about digit strings
// ---------------------------------------------------------------------------

pub open spec fn all_digits(g: Seq<char>) -> bool {
    forall|i: int| 0 <= i < g.len() ==> #[trigger] is_digit(g[i])
}

proof fn lemma_pow10_pos(n: nat)
    ensures
        pow10(n) >= 1,
    decreases n,
{
    if n > 0 {
        lemma_pow10_pos((n - 1) as nat);
    }
}

proof fn lemma_pow10_mono(a: nat, b: nat)
    requires
        a <= b,
    ensures
        pow10(a) <= pow10(b),
        a < b ==> pow10(a) * 10 <= pow10(b),
    decreases b,
{
    lemma_pow10_pos(a);
    lemma_pow10_pos(b);
    if a < b {
        lemma_pow10_mono(a, (b - 1) as nat);
    }
}

proof fn lemma_digits_bound(g: Seq<char>)
    requires
        all_digits(g),
    ensures
        digits_value(g) < pow10(g.len()),
    decreases g.len(),
{
    if g.len() > 0 {
        assert(all_digits(g.drop_last()));
        lemma_digits_bound(g.drop_last());
        assert(is_digit(g[g.len() - 1]));
        assert(digit_value(g.last()) <= 9);
    }
}

proof fn lemma_digits_concat(a: Seq<char>, b: Seq<char>)
    ensures
        digits_value(a + b) == digits_value(a) * pow10(b.len()) + digits_value(b),
    decreases b.len(),
{
    if b.len() == 0 {
        assert(a + b =~= a);
        assert(pow10(0) == 1);
        assert(digits_value(a) * 1 == digits_value(a));
    } else {
        lemma_digits_concat(a, b.drop_last());
        assert((a + b).drop_last() =~= a + b.drop_last());
        assert((a + b).last() == b.last());
        let x = digits_value(a);
        let p = pow10(b.drop_last().len());
        let y = digits_value(b.drop_last());
        let l = digit_value(b.last());
        assert(digits_value(a + b) == digits_value(a + b.drop_last()) * 10 + l);
        assert(digits_value(a + b.drop_last()) == x * p + y);
        assert(pow10(b.len()) == 10 * p);
        assert(digits_value(b) == y * 10 + l);
        assert((x * p + y) * 10 + l == x * (10 * p) + (y * 10 + l)) by (nonlinear_arith);
        assert(digits_value(a + b) == (x * p + y) * 10 + l);
        assert(digits_value(a + b) == x * (10 * p) + (y * 10 + l));
        assert(digits_value(a + b) == x * pow10(b.len()) + digits_value(b));
    }
}

proof fn lemma_zeros(g: Seq<char>)
    requires
        all_digits(g),
    ensures
        digits_value(g) == 0 <==> forall|i: int| 0 <= i < g.len() ==> g[i] == '0',
    decreases g.len(),
{
    if g.len() > 0 {
        assert(all_digits(g.drop_last()));
        lemma_zeros(g.drop_last());
        assert(is_digit(g[g.len() - 1]));
        if digits_value(g) == 0 {
            assert forall|i: int| 0 <= i < g.len() implies g[i] == '0' by {
                if i < g.len() - 1 {
                    assert(g.drop_last()[i] == g[i]);
                }
            }
        }
        if forall|i: int| 0 <= i < g.len() ==> g[i] == '0' {
            assert forall|i: int| 0 <= i < g.drop_last().len() implies g.drop_last()[i] == '0' by {
                assert(g.drop_last()[i] == g[i]);
            }
        }
    }
}

/// A digit string without leading zero of length `d` reads between `10^(d-1)`
/// and `10^d`, and is `10^(d-1)` exactly when it is a one followed by zeros.
proof fn lemma_significant(g: Seq<char>)
    requires
        all_digits(g),
        g.len() >= 1,
        g[0] != '0',
    ensures
        pow10((g.len() - 1) as nat) <= digits_value(g) < pow10(g.len()),
        digits_value(g) == pow10((g.len() - 1) as nat) <==> (g[0] == '1' && forall|i: int|
            1 <= i < g.len() ==> g[i] == '0'),
{
    let head = g.take(1);
    let rest = g.skip(1);
    assert(g =~= head + rest);
    lemma_digits_concat(head, rest);
    assert(head.drop_last() =~= Seq::<char>::empty());
    assert(digits_value(head.drop_last()) == 0);
    assert(head.last() == g[0]);
    assert(digits_value(head) == digits_value(head.drop_last()) * 10 + digit_value(head.last()));
    assert(digits_value(head) == digit_value(g[0]));
    assert(is_digit(g[0]));
    assert(all_digits(rest)) by {
        assert forall|i: int| 0 <= i < rest.len() implies is_digit(rest[i]) by {
            assert(rest[i] == g[i + 1]);
        }
    }
    lemma_digits_bound(rest);
    lemma_zeros(rest);
    lemma_digits_bound(g);
    let h = digit_value(g[0]);
    let p = pow10(rest.len());
    let r = digits_value(rest);
    lemma_pow10_pos(rest.len());
    assert(1 <= h <= 9);
    assert(h * p >= p) by (nonlinear_arith)
        requires
            h >= 1,
            p >= 1,
    ;
    assert(h * p + r == p ==> h == 1 && r == 0) by (nonlinear_arith)
        requires
            h >= 1,
            p >= 1,
            r >= 0,
    ;
    assert(p == pow10((g.len() - 1) as nat));
    assert(digits_value(g) == h * p + r);
    if g[0] == '1' && forall|i: int| 1 <= i < g.len() ==> g[i] == '0' {
        assert forall|i: int| 0 <= i < rest.len() implies rest[i] == '0' by {
            assert(rest[i] == g[i + 1]);
        }
        assert(r == 0);
        assert(h == 1);
        assert(h * p == p) by (nonlinear_arith)
            requires
                h == 1,
        ;
        assert(digits_value(g) == p);
    }
    if digits_value(g) == p {
        assert(h == 1 && r == 0);
        assert(g[0] == '1');
    }
    if r == 0 {
        assert forall|i: int| 1 <= i < g.len() implies g[i] == '0' by {
            assert(rest[i - 1] == g[i]);
        }
    }
}

/// Whether `m * 10^(-t) <= 1` (for `t <= 0`) or `m <= 10^t` (for `t > 0`),
/// decided from the number `d` of significant digits of `m` and whether `m`
/// is a power of ten.
proof fn lemma_unit_decision(m: nat, d: nat, pt: bool, t: int)
    requires
        d >= 1,
        pow10((d - 1) as nat) <= m < pow10(d),
        pt <==> m == pow10((d - 1) as nat),
    ensures
        (if t <= 0 {
            m * pow10((-t) as nat) <= 1
        } else {
            m <= pow10(t as nat)
        }) <==> (t >= 0 && (d <= t || (d == t + 1 && pt))),
{
    lemma_pow10_pos((d - 1) as nat);
    assert(pow10(0) == 1);
    assert(pow10(1) == 10);
    if t < 0 {
        let k = (-t) as nat;
        lemma_pow10_pos(k);
        lemma_pow10_mono(1, k);
        assert(m * pow10(k) >= pow10(k)) by (nonlinear_arith)
            requires
                m >= 1,
        ;
        assert(!(m * pow10(k) <= 1));
    } else if t == 0 {
        assert(m * pow10(0) == m);
        if d > 1 {
            lemma_pow10_mono(1, (d - 1) as nat);
        }
        assert((m * pow10(0) <= 1) <==> (d == 1 && pt));
    } else {
        let tt = t as nat;
        lemma_pow10_pos(tt);
        if d <= tt {
            lemma_pow10_mono(d, tt);
            assert(m <= pow10(tt));
        } else if d == tt + 1 {
            assert((m <= pow10(tt)) <==> pt);
        } else {
            lemma_pow10_mono(tt, (d - 1) as nat);
            assert(!(m <= pow10(tt)));
        }
    }
}

pub proof fn lemma_digits_end(t: Seq<char>, i: int)
    requires
        0 <= i <= t.len(),
    ensures
        i <= digits_end(t, i) <= t.len(),
        forall|j: int| i <= j < digits_end(t, i) ==> is_digit(t[j]),
        digits_end(t, i) < t.len() ==> !is_digit(t[digits_end(t, i)]),
    decreases t.len() - i,
{
    if i < t.len() && is_digit(t[i]) {
        lemma_digits_end(t, i + 1);
    }
}

// ---------------------------------------------------------------------------
// Executable recognizers
// ---------------------------------------------------------------------------

fn digits_end_exec(t: &Vec<char>, i: usize) -> (r: usize)
    requires
        i <= t.len(),
    ensures
        r == digits_end(t@, i as int),
        i <= r <= t.len(),
{
    let mut j = i;
    while j < t.len() && '0' <= t[j] && t[j] <= '9'
        invariant
            i <= j <= t.len(),
            digits_end(t@, j as int) == digits_end(t@, i as int),
        decreases t.len() - j,
    {
        j = j + 1;
    }
    j
}

fn sign_len_exec(t: &Vec<char>) -> (r: usize)
    ensures
        r == sign_len(t@),
{
    if t.len() > 0 && (t[0] == '+' || t[0] == '-') {
        1
    } else {
        0
    }
}

fn ci_char_exec(c: char, w: char) -> (r: bool)
    ensures
        r == ci_char(c, w),
{
    c == w || ('a' <= w && w <= 'z' && (c as u32) + 32 == (w as u32))
}

/// `t[from..]` equals the lower-case word `w`, ignoring ASCII case.
fn ci_rest_eq(t: &Vec<char>, from: usize, w: &str) -> (r: bool)
    requires
        from <= t.len(),
    ensures
        r == ci_eq(t@.skip(from as int), w@),
{
    let wv = crate::text::chars_of(w);
    if t.len() - from != wv.len() {
        return false;
    }
    let mut i: usize = 0;
    while i < wv.len()
        invariant
            wv@ == w@,
            t.len() - from == wv.len(),
            i <= wv.len(),
            forall|j: int| 0 <= j < i ==> #[trigger] ci_char(t@.skip(from as int)[j], w@[j]),
        decreases wv.len() - i,
    {
        if !ci_char_exec(t[from + i], wv[i]) {
            assert(!ci_char(t@.skip(from as int)[i as int], w@[i as int]));
            return false;
        }
        i = i + 1;
    }
    true
}

fn is_special_exec(t: &Vec<char>) -> (r: bool)
    ensures
        r == is_special(t@),
{
    let sl = sign_len_exec(t);
    ci_rest_eq(t, sl, "inf") || ci_rest_eq(t, sl, "infinity") || ci_rest_eq(t, sl, "nan")
}

/// Whether `str::parse::<f64>` accepts the token `t`.
pub fn float_literal(t: &Vec<char>) -> (r: bool)
    ensures
        r == is_float_literal(t@),
{
    if is_special_exec(t) {
        return true;
    }
    let sl = sign_len_exec(t);
    let ie = digits_end_exec(t, sl);
    let has_pt = ie < t.len() && t[ie] == '.';
    let me = if has_pt {
        digits_end_exec(t, ie + 1)
    } else {
        ie
    };
    let nfrac = if has_pt {
        me - ie - 1
    } else {
        0
    };
    assert(mantissa_digits(t@).len() == (ie - sl) + nfrac);
    if (ie - sl) + nfrac == 0 {
        return false;
    }
    if me == t.len() {
        return true;
    }
    if !(t[me] == 'e' || t[me] == 'E') {
        return false;
    }
    let es = if me + 1 < t.len() && (t[me + 1] == '+' || t[me + 1] == '-') {
        me + 2
    } else {
        me + 1
    };
    es < t.len() && digits_end_exec(t, es) == t.len()
}

/// The value of the digits `t[a..b]`, capped at `2^64`.
fn capped_value(t: &Vec<char>, a: usize, b: usize) -> (r: u128)
    requires
        a <= b <= t.len(),
        forall|j: int| a <= j < b ==> is_digit(t@[j]),
    ensures
        r as int == if digits_value(t@.subrange(a as int, b as int)) < 0x1_0000_0000_0000_0000 {
            digits_value(t@.subrange(a as int, b as int)) as int
        } else {
            0x1_0000_0000_0000_0000
        },
{
    let mut v: u128 = 0;
    let mut i = a;
    assert(t@.subrange(a as int, a as int) =~= Seq::<char>::empty());
    while i < b
        invariant
            a <= i <= b <= t.len(),
            forall|j: int| a <= j < b ==> is_digit(t@[j]),
            v as int == if digits_value(t@.subrange(a as int, i as int)) < 0x1_0000_0000_0000_0000 {
                digits_value(t@.subrange(a as int, i as int)) as int
            } else {
                0x1_0000_0000_0000_0000
            },
        decreases b - i,
    {
        let ghost prev = digits_value(t@.subrange(a as int, i as int));
        assert(t@.subrange(a as int, i + 1).drop_last() =~= t@.subrange(a as int, i as int));
        assert(t@.subrange(a as int, i + 1).last() == t@[i as int]);
        assert(is_digit(t@[i as int]));
        let dv = (t[i] as u32 - '0' as u32) as u128;
        assert(dv == digit_value(t@[i as int]));
        if v >= 0x1_0000_0000_0000_0000 {
            v = 0x1_0000_0000_0000_0000;
        } else {
            v = v * 10 + dv;
            if v > 0x1_0000_0000_0000_0000 {
                v = 0x1_0000_0000_0000_0000;
            }
        }
        i = i + 1;
    }
    v
}

/// The mantissa digits of a decimal literal and the number of fraction digits.
fn mantissa_of(t: &Vec<char>) -> (r: (Vec<char>, usize))
    ensures
        r.0@ == mantissa_digits(t@),
        all_digits(r.0@),
        r.1 == frac_digits(t@).len(),
{
    let sl = sign_len_exec(t);
    let ie = digits_end_exec(t, sl);
    let has_pt = ie < t.len() && t[ie] == '.';
    let me = if has_pt {
        digits_end_exec(t, ie + 1)
    } else {
        ie
    };
    proof {
        lemma_digits_end(t@, sl as int);
        if has_pt {
            lemma_digits_end(t@, ie + 1);
        }
    }
    let mut g = crate::scan::sub_vec(t, sl, ie);
    let mut fr = if has_pt {
        crate::scan::sub_vec(t, ie + 1, me)
    } else {
        Vec::new()
    };
    let f = fr.len();
    assert(fr@ =~= frac_digits(t@));
    g.append(&mut fr);
    assert(g@ =~= mantissa_digits(t@));
    assert(all_digits(g@)) by {
        assert forall|i: int| 0 <= i < g@.len() implies is_digit(g@[i]) by {
            if i < ie - sl {
                assert(g@[i] == t@[sl + i]);
            } else {
                assert(g@[i] == t@[ie + 1 + (i - (ie - sl))]);
            }
        }
    }
    (g, f)
}

/// The number of leading zeros of a digit string, and whether the rest is a
/// one followed by zeros.
fn leading_zeros(g: &Vec<char>) -> (r: (usize, bool))
    requires
        all_digits(g@),
    ensures
        r.0 <= g.len(),
        (digits_value(g@) == 0) <==> r.0 == g.len(),
        r.0 < g.len() ==> ({
            let d = (g.len() - r.0) as nat;
            let m = digits_value(g@);
            &&& pow10((d - 1) as nat) <= m < pow10(d)
            &&& (r.1 <==> m == pow10((d - 1) as nat))
        }),
{
    let mut z: usize = 0;
    while z < g.len() && g[z] == '0'
        invariant
            z <= g.len(),
            forall|j: int| 0 <= j < z ==> g@[j] == '0',
        decreases g.len() - z,
    {
        z = z + 1;
    }
    let ghost sig = g@.skip(z as int);
    proof {
        assert(g@ =~= g@.take(z as int) + sig);
        lemma_digits_concat(g@.take(z as int), sig);
        assert(all_digits(g@.take(z as int)));
        lemma_zeros(g@.take(z as int));
        assert(all_digits(sig)) by {
            assert forall|i: int| 0 <= i < sig.len() implies is_digit(sig[i]) by {
                assert(sig[i] == g@[z + i]);
            }
        }
        lemma_zeros(sig);
        lemma_zeros(g@);
        assert(digits_value(g@.take(z as int)) == 0);
        assert(digits_value(g@) == digits_value(sig));
    }
    if z == g.len() {
        return (z, false);
    }
    assert(sig[0] == g@[z as int]);
    let mut pt = g[z] == '1';
    let mut k = z + 1;
    while k < g.len()
        invariant
            z < k <= g.len(),
            pt == (g@[z as int] == '1' && forall|j: int| z < j < k ==> g@[j] == '0'),
        decreases g.len() - k,
    {
        if g[k] != '0' {
            pt = false;
        }
        k = k + 1;
    }
    proof {
        assert(g@[z as int] != '0');
        lemma_significant(sig);
        assert(pt <==> (sig[0] == '1' && forall|i: int| 1 <= i < sig.len() ==> sig[i] == '0')) by {
            if pt {
                assert forall|i: int| 1 <= i < sig.len() implies sig[i] == '0' by {
                    assert(sig[i] == g@[z + i]);
                }
            }
            if sig[0] == '1' && forall|i: int| 1 <= i < sig.len() ==> sig[i] == '0' {
                assert forall|j: int| z < j < g.len() implies g@[j] == '0' by {
                    assert(g@[j] == sig[j - z]);
                }
            }
        }
    }
    (z, pt)
}

/// The sign of the exponent of a decimal literal and its magnitude capped at
/// `2^64`.
fn exponent_of(t: &Vec<char>) -> (r: (bool, u128))
    requires
        is_decimal_literal(t@),
    ensures
        ({
            let e = exponent_value(t@);
            let mag = if r.0 { -e } else { e };
            &&& mag >= 0
            &&& r.1 as int == if mag < 0x1_0000_0000_0000_0000 { mag } else { 0x1_0000_0000_0000_0000 }
        }),
{
    let sl = sign_len_exec(t);
    let ie = digits_end_exec(t, sl);
    let has_pt = ie < t.len() && t[ie] == '.';
    let me = if has_pt {
        digits_end_exec(t, ie + 1)
    } else {
        ie
    };
    if me >= t.len() {
        return (false, 0);
    }
    let es = if me + 1 < t.len() && (t[me + 1] == '+' || t[me + 1] == '-') {
        me + 2
    } else {
        me + 1
    };
    proof {
        lemma_digits_end(t@, es as int);
    }
    let mag = capped_value(t, es, t.len());
    (t[me + 1] == '-', mag)
}

/// Whether the number literal `t` lies in `[0, 1]` (see `in_unit_interval`).
pub fn unit_interval(t: &Vec<char>) -> (r: bool)
    requires
        is_float_literal(t@),
    ensures
        r == in_unit_interval(t@),
{
    if is_special_exec(t) {
        return false;
    }
    let (g, f) = mantissa_of(t);
    let (z, pt) = leading_zeros(&g);
    if z == g.len() {
        return true;
    }
    if t[0] == '-' {
        return false;
    }
    let d = g.len() - z;
    let (eneg, emag) = exponent_of(t);
    let ghost e = exponent_value(t@);
    let ghost tt = f as int - e;
    proof {
        lemma_unit_decision(digits_value(g@), d as nat, pt, tt);
    }
    let sig_len = d as u128;
    let frac_len = f as u128;
    if eneg {
        let total = frac_len + emag;
        sig_len <= total || (sig_len == total + 1 && pt)
    } else if emag > frac_len {
        false
    } else {
        let total = frac_len - emag;
        sig_len <= total || (sig_len == total + 1 && pt)
    }
}

} // verus!
