//! Character classes, string building and the text of positional errors.
use vstd::prelude::*;

verus! {

/// Unicode `White_Space`: the characters that `char::is_whitespace` accepts
/// and that `str::trim` removes.
pub open spec fn is_ws(c: char) -> bool {
    ('\u{9}' <= c && c <= '\u{d}') || c == ' ' || c == '\u{85}' || c == '\u{a0}' || c == '\u{1680}'
        || ('\u{2000}' <= c && c <= '\u{200a}') || c == '\u{2028}' || c == '\u{2029}' || c
        == '\u{202f}' || c == '\u{205f}' || c == '\u{3000}'
}

pub fn is_whitespace(c: char) -> (r: bool)
    ensures
        r == is_ws(c),
{
    ('\u{9}' <= c && c <= '\u{d}') || c == ' ' || c == '\u{85}' || c == '\u{a0}' || c == '\u{1680}'
        || ('\u{2000}' <= c && c <= '\u{200a}') || c == '\u{2028}' || c == '\u{2029}' || c
        == '\u{202f}' || c == '\u{205f}' || c == '\u{3000}'
}

pub open spec fn is_ascii_alnum(c: char) -> bool {
    ('a' <= c && c <= 'z') || ('A' <= c && c <= 'Z') || ('0' <= c && c <= '9')
}

/// What `char::is_alphanumeric` returns for `c`: whether `c` has the Unicode
/// `Alphabetic` property or a numeric general category.
pub uninterp spec fn char_alphanumeric(c: char) -> bool;

/// Calls `char::is_alphanumeric`. Trusted: the result is the named
/// `char_alphanumeric(c)`; nothing more is stated of it.
#[verifier::external_body]
fn std_is_alphanumeric(c: char) -> (r: bool)
    ensures
        r == char_alphanumeric(c),
{
    c.is_alphanumeric()
}

/// `char::is_alphanumeric`: among ASCII characters exactly the letters and
/// digits (the only ASCII characters that are `Alphabetic` or numeric in
/// Unicode); beyond ASCII, what the standard library answers.
pub open spec fn alnum(c: char) -> bool {
    if c <= '\u{7f}' {
        is_ascii_alnum(c)
    } else {
        char_alphanumeric(c)
    }
}

pub fn is_alphanumeric(c: char) -> (r: bool)
    ensures
        r == alnum(c),
{
    if c <= '\u{7f}' {
        ('a' <= c && c <= 'z') || ('A' <= c && c <= 'Z') || ('0' <= c && c <= '9')
    } else {
        std_is_alphanumeric(c)
    }
}

/// Calls `String::push`: appends one character.
#[verifier::external_body]
pub(crate) fn push_char(s: &mut String, c: char)
    ensures
        final(s)@ == old(s)@.push(c),
{
    s.push(c)
}

/// The characters of a string slice, in order.
pub fn chars_of(s: &str) -> (v: Vec<char>)
    ensures
        v@ == s@,
{
    let n = s.unicode_len();
    let mut v: Vec<char> = Vec::new();
    let mut i: usize = 0;
    while i < n
        invariant
            n == s@.len(),
            i <= n,
            v@ == s@.take(i as int),
        decreases n - i,
    {
        let c = s.get_char(i);
        v.push(c);
        i = i + 1;
        assert(v@ =~= s@.take(i as int));
    }
    assert(v@ =~= s@);
    v
}

/// A `String` holding the characters `v[from..to]`.
pub fn string_of(v: &Vec<char>, from: usize, to: usize) -> (r: String)
    requires
        from <= to <= v.len(),
    ensures
        r@ == v@.subrange(from as int, to as int),
{
    let mut r = String::new();
    let mut i = from;
    while i < to
        invariant
            from <= i <= to <= v.len(),
            r@ == v@.subrange(from as int, i as int),
        decreases to - i,
    {
        push_char(&mut r, v[i]);
        i = i + 1;
        assert(r@ =~= v@.subrange(from as int, i as int));
    }
    r
}

/// A `String` holding the characters of `s`.
pub fn string_of_seq_str(s: &str) -> (r: String)
    ensures
        r@ == s@,
{
    let mut r = String::new();
    r.append(s);
    assert(r@ =~= s@);
    r
}

// ---------------------------------------------------------------------------
// Decimal rendering of counts
// ---------------------------------------------------------------------------

pub open spec fn digit_char(d: nat) -> char {
    if d == 0 { '0' } else if d == 1 { '1' } else if d == 2 { '2' } else if d == 3 { '3' }
    else if d == 4 { '4' } else if d == 5 { '5' } else if d == 6 { '6' } else if d == 7 { '7' }
    else if d == 8 { '8' } else { '9' }
}

/// The decimal digits of `n`, most significant first, as `usize`'s `Display` writes them.
pub open spec fn decimal(n: nat) -> Seq<char>
    decreases n,
{
    if n < 10 {
        seq![digit_char(n)]
    } else {
        decimal(n / 10).push(digit_char(n % 10))
    }
}

fn digit_of(d: usize) -> (c: char)
    requires
        d < 10,
    ensures
        c == digit_char(d as nat),
{
    if d == 0 { '0' } else if d == 1 { '1' } else if d == 2 { '2' } else if d == 3 { '3' }
    else if d == 4 { '4' } else if d == 5 { '5' } else if d == 6 { '6' } else if d == 7 { '7' }
    else if d == 8 { '8' } else { '9' }
}

/// Appends the decimal digits of `n`.
pub fn push_decimal(out: &mut String, n: usize)
    ensures
        final(out)@ == old(out)@ + decimal(n as nat),
    decreases n,
{
    if n < 10 {
        push_char(out, digit_of(n));
        assert(decimal(n as nat) =~= seq![digit_char(n as nat)]);
    } else {
        push_decimal(out, n / 10);
        push_char(out, digit_of(n % 10));
    }
}

// ---------------------------------------------------------------------------
// Positions and error messages
// ---------------------------------------------------------------------------

/// Line and column (both from 1) of the position just after `t`: a newline
/// starts a new line, every other character moves one column on.
pub open spec fn line_col(t: Seq<char>) -> (int, int)
    decreases t.len(),
{
    if t.len() == 0 {
        (1, 1)
    } else {
        let lc = line_col(t.drop_last());
        if t.last() == '\n' {
            (lc.0 + 1, 1)
        } else {
            (lc.0, lc.1 + 1)
        }
    }
}

proof fn lemma_line_col_bounds(t: Seq<char>)
    ensures
        1 <= line_col(t).0 <= t.len() + 1,
        1 <= line_col(t).1 <= t.len() + 1,
    decreases t.len(),
{
    if t.len() > 0 {
        lemma_line_col_bounds(t.drop_last());
    }
}

/// The message of a parse error at position `p` of input `s`:
/// `"<msg> at line <l>, col <c>"`.
pub open spec fn error_text(msg: Seq<char>, s: Seq<char>, p: int) -> Seq<char> {
    let lc = line_col(s.take(p));
    msg + " at line "@ + decimal(lc.0 as nat) + ", col "@ + decimal(lc.1 as nat)
}

/// Builds `error_text(msg, s, p)`.
pub fn make_error(msg: &str, s: &Vec<char>, p: usize) -> (r: String)
    requires
        p <= s.len() < usize::MAX,
    ensures
        r@ == error_text(msg@, s@, p as int),
{
    let mut line: usize = 1;
    let mut col: usize = 1;
    let mut i: usize = 0;
    while i < p
        invariant
            p <= s.len() < usize::MAX,
            i <= p,
            (line as int, col as int) == line_col(s@.take(i as int)),
        decreases p - i,
    {
        proof {
            lemma_line_col_bounds(s@.take(i as int));
            assert(s@.take(i + 1).drop_last() =~= s@.take(i as int));
        }
        if s[i] == '\n' {
            line = line + 1;
            col = 1;
        } else {
            col = col + 1;
        }
        i = i + 1;
    }
    let mut r = string_of_seq_str(msg);
    r.append(" at line ");
    push_decimal(&mut r, line);
    r.append(", col ");
    push_decimal(&mut r, col);
    r
}

/// `make_error` for a message held in a `String`.
pub fn make_error_string(msg: String, s: &Vec<char>, p: usize) -> (r: String)
    requires
        p <= s.len() < usize::MAX,
    ensures
        r@ == error_text(msg@, s@, p as int),
{
    make_error(msg.as_str(), s, p)
}


// ---------------------------------------------------------------------------
// Byte offsets in UTF-8
// ---------------------------------------------------------------------------

/// How many bytes UTF-8 takes for `c`.
pub open spec fn utf8_width(c: char) -> nat {
    if (c as u32) < 0x80 {
        1
    } else if (c as u32) < 0x800 {
        2
    } else if (c as u32) < 0x10000 {
        3
    } else {
        4
    }
}

/// How many bytes UTF-8 takes for `t`.
pub open spec fn byte_len(t: Seq<char>) -> nat
    decreases t.len(),
{
    if t.len() == 0 {
        0
    } else {
        byte_len(t.drop_last()) + utf8_width(t.last())
    }
}

/// The byte offset of character position `i` of `s`; past the end, one byte
/// per position.
pub open spec fn byte_pos(s: Seq<char>, i: int) -> int {
    if i <= s.len() {
        byte_len(s.take(i)) as int
    } else {
        byte_len(s) + (i - s.len())
    }
}

/// `b` is the byte offset of a character position: it does not fall inside
/// the encoding of a character.
pub open spec fn at_boundary(s: Seq<char>, b: int) -> bool {
    exists|i: int| 0 <= i && #[trigger] byte_pos(s, i) == b
}

/// The character position whose byte offset is `b`.
pub open spec fn char_pos(s: Seq<char>, b: int) -> int {
    choose|i: int| 0 <= i && #[trigger] byte_pos(s, i) == b
}

proof fn lemma_byte_pos_step(s: Seq<char>, i: int)
    requires
        0 <= i,
    ensures
        byte_pos(s, i) < byte_pos(s, i + 1),
        0 <= byte_pos(s, i),
        i <= s.len() ==> i <= byte_pos(s, i) <= byte_len(s),
{
    if i < s.len() {
        assert(s.take(i + 1).drop_last() =~= s.take(i));
    } else if i == s.len() {
        assert(s.take(i) =~= s);
    }
    lemma_byte_len_bounds(s, i);
}

proof fn lemma_byte_len_bounds(s: Seq<char>, i: int)
    requires
        0 <= i,
    ensures
        i <= s.len() ==> i <= byte_len(s.take(i)) <= byte_len(s),
    decreases s.len() - i,
{
    if i < s.len() {
        lemma_byte_len_bounds(s, i + 1);
        assert(s.take(i + 1).drop_last() =~= s.take(i));
    } else if i == s.len() {
        assert(s.take(i) =~= s);
    }
    if i <= s.len() {
        lemma_byte_len_prefix_len(s.take(i));
    }
}

proof fn lemma_byte_len_prefix_len(t: Seq<char>)
    ensures
        t.len() <= byte_len(t),
    decreases t.len(),
{
    if t.len() > 0 {
        lemma_byte_len_prefix_len(t.drop_last());
    }
}

/// Byte offsets grow with character positions.
pub proof fn lemma_byte_pos_mono(s: Seq<char>, i: int, j: int)
    requires
        0 <= i < j,
    ensures
        byte_pos(s, i) < byte_pos(s, j),
    decreases j - i,
{
    lemma_byte_pos_step(s, j - 1);
    if i < j - 1 {
        lemma_byte_pos_mono(s, i, j - 1);
    }
}

/// Each byte offset belongs to one character position.
pub proof fn lemma_char_pos(s: Seq<char>, i: int)
    requires
        0 <= i,
    ensures
        at_boundary(s, byte_pos(s, i)),
        char_pos(s, byte_pos(s, i)) == i,
{
    let b = byte_pos(s, i);
    assert(byte_pos(s, i) == b);
    let j = char_pos(s, b);
    if j < i {
        lemma_byte_pos_mono(s, j, i);
    } else if i < j {
        lemma_byte_pos_mono(s, i, j);
    }
}

fn utf8_width_exec(c: char) -> (w: usize)
    ensures
        w == utf8_width(c),
{
    if (c as u32) < 0x80 {
        1
    } else if (c as u32) < 0x800 {
        2
    } else if (c as u32) < 0x10000 {
        3
    } else {
        4
    }
}

/// The byte offset of character position `i` of `s`.
pub fn byte_pos_exec(s: &Vec<char>, i: usize) -> (b: usize)
    requires
        0 <= byte_pos(s@, i as int) <= usize::MAX,
    ensures
        b == byte_pos(s@, i as int),
{
    let n = if i <= s.len() { i } else { s.len() };
    let mut acc: usize = 0;
    let mut k: usize = 0;
    proof {
        lemma_byte_len_bounds(s@, n as int);
        assert(s@.take(0) =~= Seq::<char>::empty());
    }
    while k < n
        invariant
            n <= s.len(),
            n == (if i <= s.len() { i as int } else { s.len() as int }),
            k <= n,
            acc == byte_len(s@.take(k as int)),
            byte_len(s@.take(n as int)) <= byte_pos(s@, i as int) <= usize::MAX,
        decreases n - k,
    {
        proof {
            assert(s@.take(k + 1).drop_last() =~= s@.take(k as int));
            lemma_byte_len_bounds(s@, k + 1);
            lemma_byte_len_take_mono(s@, k + 1, n as int);
        }
        acc = acc + utf8_width_exec(s[k]);
        k = k + 1;
    }
    if i <= s.len() {
        acc
    } else {
        proof {
            assert(s@.take(s.len() as int) =~= s@);
        }
        acc + (i - s.len())
    }
}

/// Within the text, a byte offset is at most its byte length.
pub proof fn lemma_byte_pos_le(s: Seq<char>, i: int)
    requires
        0 <= i <= s.len(),
    ensures
        byte_pos(s, i) <= byte_len(s),
{
    lemma_byte_len_bounds(s, i);
}

proof fn lemma_byte_len_take_mono(s: Seq<char>, i: int, j: int)
    requires
        0 <= i <= j <= s.len(),
    ensures
        byte_len(s.take(i)) <= byte_len(s.take(j)),
    decreases j - i,
{
    if i < j {
        lemma_byte_len_take_mono(s, i, j - 1);
        assert(s.take(j).drop_last() =~= s.take(j - 1));
    }
}

/// The character position whose byte offset is `b`.
pub fn char_pos_exec(s: &Vec<char>, b: usize) -> (i: usize)
    requires
        at_boundary(s@, b as int),
    ensures
        byte_pos(s@, i as int) == b,
        i as int == char_pos(s@, b as int),
{
    let ghost j = char_pos(s@, b as int);
    proof {
        lemma_char_pos(s@, j);
    }
    let mut acc: usize = 0;
    let mut k: usize = 0;
    proof {
        assert(s@.take(0) =~= Seq::<char>::empty());
    }
    while k < s.len() && acc < b
        invariant
            0 <= j,
            byte_pos(s@, j) == b,
            char_pos(s@, b as int) == j,
            k <= s.len(),
            k <= j,
            acc == byte_pos(s@, k as int),
        decreases s.len() - k,
    {
        proof {
            lemma_byte_pos_step(s@, k as int);
            assert(s@.take(k + 1).drop_last() =~= s@.take(k as int));
            if j == k {
                assert(false);
            }
            if k + 1 < j {
                lemma_byte_pos_mono(s@, k + 1, j);
            }
        }
        acc = acc + utf8_width_exec(s[k]);
        k = k + 1;
    }
    proof {
        if acc < b {
            // past the end: one byte per position
            assert(k == s.len());
            assert(s@.take(k as int) =~= s@);
            lemma_byte_pos_step(s@, k as int);
            assert(k <= acc);
            assert(byte_pos(s@, (k + (b - acc)) as int) == b);
            lemma_char_pos(s@, (k + (b - acc)) as int);
        } else {
            if k < j {
                lemma_byte_pos_mono(s@, k as int, j);
            }
        }
    }
    if acc < b {
        k + (b - acc)
    } else {
        k
    }
}

} // verus!
