//! Executable scans over the characters of the input, each equal to its
//! counterpart in `grammar`.
use vstd::prelude::*;

use crate::grammar::{
    keyword_at,
    at, bare_stop, scan, skip_comment, skip_ws, starts_at, stops, trim, trim_end, trim_quotes,
    trim_quotes_end, trim_quotes_start, trim_start, unescape, ws_end, Stop,
};
use crate::text::{chars_of, is_alphanumeric, is_whitespace, is_ws, push_char};

verus! {

pub fn char_at(s: &Vec<char>, p: usize, c: char) -> (r: bool)
    ensures
        r == at(s@, p as int, c),
{
    p < s.len() && s[p] == c
}

pub fn ws_end_exec(s: &Vec<char>, p: usize) -> (r: usize)
    requires
        p <= s.len(),
    ensures
        r == ws_end(s@, p as int),
        p <= r <= s.len(),
{
    let mut i = p;
    while i < s.len() && is_whitespace(s[i])
        invariant
            p <= i <= s.len(),
            ws_end(s@, i as int) == ws_end(s@, p as int),
        decreases s.len() - i,
    {
        i = i + 1;
    }
    i
}

/// The position after the blanks and comments at `p`.
pub fn skip_ws_exec(s: &Vec<char>, p: usize) -> (r: usize)
    requires
        p <= s.len(),
    ensures
        r == skip_ws(s@, p as int),
        p <= r <= s.len(),
{
    let mut i = p;
    while i < s.len()
        invariant
            p <= i <= s.len(),
            skip_ws(s@, i as int) == skip_ws(s@, p as int),
        decreases s.len() - i,
    {
        let c = s[i];
        if c == '#' || (c == '/' && char_at(s, i + 1, '/')) {
            let mut j = i + 1;
            while j < s.len() && s[j] != '\n'
                invariant
                    i < j <= s.len(),
                    skip_comment(s@, j as int) == skip_ws(s@, p as int),
                decreases s.len() - j,
            {
                j = j + 1;
            }
            i = j;
        } else if is_whitespace(c) {
            i = i + 1;
        } else {
            return i;
        }
    }
    i
}

pub fn bare_stop_exec(s: &Vec<char>, i: usize) -> (r: bool)
    requires
        i < s.len(),
    ensures
        r == bare_stop(s@, i as int),
{
    let c = s[i];
    if c == '\n' || c == ',' || c == '}' || c == ']' || c == '~' {
        return true;
    }
    if c == ' ' || c == '\t' {
        let j = ws_end_exec(s, i);
        if char_at(s, j, '@') || char_at(s, j, '#') || (char_at(s, j, '/') && j < s.len()
            && char_at(s, j + 1, '/')) {
            return true;
        }
    }
    c == '#' || (c == '/' && char_at(s, i + 1, '/'))
}

pub fn stops_exec(s: &Vec<char>, i: usize, k: &Stop) -> (r: bool)
    requires
        i < s.len(),
    ensures
        r == stops(*k, s@, i as int),
{
    match k {
        Stop::Char(c) => s[i] == *c,
        Stop::PropValueEnd => s[i] == ',' || s[i] == '}',
        Stop::ConfidenceEnd => is_whitespace(s[i]) || s[i] == ',' || s[i] == '}' || s[i] == ']',
        Stop::NameEnd => !(is_alphanumeric(s[i]) || s[i] == '_'),
        Stop::BareEnd => bare_stop_exec(s, i),
    }
}

/// The first position from `p` on where a scan of kind `k` stops.
pub fn scan_exec(s: &Vec<char>, p: usize, k: &Stop) -> (r: usize)
    requires
        p <= s.len(),
    ensures
        r == scan(s@, p as int, *k),
        p <= r <= s.len(),
{
    let mut i = p;
    while i < s.len() && !stops_exec(s, i, k)
        invariant
            p <= i <= s.len(),
            scan(s@, i as int, *k) == scan(s@, p as int, *k),
        decreases s.len() - i,
    {
        i = i + 1;
    }
    i
}

/// The bounds of `trim(s[a..b])`.
pub fn trim_bounds(s: &Vec<char>, a: usize, b: usize) -> (r: (usize, usize))
    requires
        a <= b <= s.len(),
    ensures
        a <= r.0 <= r.1 <= b,
        s@.subrange(r.0 as int, r.1 as int) == trim(s@.subrange(a as int, b as int)),
{
    let mut lo = a;
    while lo < b && is_whitespace(s[lo])
        invariant
            a <= lo <= b <= s.len(),
            trim_start(s@.subrange(lo as int, b as int)) == trim_start(s@.subrange(a as int, b as int)),
        decreases b - lo,
    {
        assert(s@.subrange(lo as int, b as int).drop_first() =~= s@.subrange(lo + 1, b as int));
        lo = lo + 1;
    }
    assert(trim_start(s@.subrange(lo as int, b as int)) == s@.subrange(lo as int, b as int));
    let mut hi = b;
    while hi > lo && is_whitespace(s[hi - 1])
        invariant
            a <= lo <= hi <= b <= s.len(),
            trim_end(s@.subrange(lo as int, hi as int)) == trim(s@.subrange(a as int, b as int)),
        decreases hi - lo,
    {
        assert(s@.subrange(lo as int, hi as int).drop_last() =~= s@.subrange(lo as int, hi - 1));
        hi = hi - 1;
    }
    (lo, hi)
}

/// A `String` holding `trim(s[a..b])`.
pub fn trimmed_string(s: &Vec<char>, a: usize, b: usize) -> (r: String)
    requires
        a <= b <= s.len(),
    ensures
        r@ == trim(s@.subrange(a as int, b as int)),
{
    let (lo, hi) = trim_bounds(s, a, b);
    crate::text::string_of(s, lo, hi)
}

/// `s[p..]` starts with `w`.
pub fn starts_with_at(s: &Vec<char>, p: usize, w: &str) -> (r: bool)
    requires
        p <= s.len(),
    ensures
        r == starts_at(s@, p as int, w@),
{
    let wv = chars_of(w);
    if wv.len() > s.len() - p {
        return false;
    }
    let mut i: usize = 0;
    while i < wv.len()
        invariant
            wv@ == w@,
            p + wv.len() <= s.len(),
            i <= wv.len(),
            forall|j: int| 0 <= j < i ==> s@[p + j] == wv@[j],
        decreases wv.len() - i,
    {
        if s[p + i] != wv[i] {
            assert(s@.subrange(p as int, p + wv.len())[i as int] != w@[i as int]);
            return false;
        }
        i = i + 1;
    }
    assert(s@.subrange(p as int, p + wv.len()) =~= w@);
    true
}

/// A copy of `s[a..b]`.
pub fn sub_vec(s: &Vec<char>, a: usize, b: usize) -> (r: Vec<char>)
    requires
        a <= b <= s.len(),
    ensures
        r@ == s@.subrange(a as int, b as int),
{
    let mut r: Vec<char> = Vec::new();
    let mut i = a;
    while i < b
        invariant
            a <= i <= b <= s.len(),
            r@ == s@.subrange(a as int, i as int),
        decreases b - i,
    {
        r.push(s[i]);
        i = i + 1;
        assert(r@ =~= s@.subrange(a as int, i as int));
    }
    r
}

/// `w` at `p`, not followed by an alphanumeric character.
pub fn keyword(s: &Vec<char>, p: usize, w: &str) -> (r: bool)
    requires
        p <= s.len(),
    ensures
        r == crate::grammar::keyword_at(s@, p as int, w@),
{
    if !starts_with_at(s, p, w) {
        return false;
    }
    let n = literal_len(w);
    p + n == s.len() || !is_alphanumeric(s[p + n])
}

/// The length of the literal `w`.
pub fn literal_len(w: &str) -> (n: usize)
    ensures
        n == w@.len(),
{
    w.unicode_len()
}

pub fn unescape_exec(c: char) -> (r: char)
    ensures
        r == unescape(c),
{
    if c == 'n' {
        '\n'
    } else if c == 'r' {
        '\r'
    } else if c == 't' {
        '\t'
    } else {
        c
    }
}

/// `t.trim_matches('"')`.
pub fn trim_quotes_string(t: &String) -> (r: String)
    ensures
        r@ == trim_quotes(t@),
{
    let v = chars_of(t.as_str());
    let mut lo: usize = 0;
    assert(v@.subrange(0, v.len() as int) =~= v@);
    while lo < v.len() && v[lo] == '"'
        invariant
            lo <= v.len(),
            trim_quotes_start(v@.subrange(lo as int, v.len() as int)) == trim_quotes_start(v@),
        decreases v.len() - lo,
    {
        assert(v@.subrange(lo as int, v.len() as int).drop_first() =~= v@.subrange(
            lo + 1,
            v.len() as int,
        ));
        lo = lo + 1;
    }
    assert(v@.subrange(0, v.len() as int) =~= v@);
    assert(trim_quotes_start(v@.subrange(lo as int, v.len() as int)) == v@.subrange(
        lo as int,
        v.len() as int,
    ));
    let mut hi = v.len();
    while hi > lo && v[hi - 1] == '"'
        invariant
            lo <= hi <= v.len(),
            trim_quotes_end(v@.subrange(lo as int, hi as int)) == trim_quotes(v@),
        decreases hi - lo,
    {
        assert(v@.subrange(lo as int, hi as int).drop_last() =~= v@.subrange(lo as int, hi - 1));
        hi = hi - 1;
    }
    crate::text::string_of(&v, lo, hi)
}

/// Whether `t` holds exactly the characters of the literal `w`.
pub fn text_is(t: &String, w: &str) -> (r: bool)
    ensures
        r == (t@ == w@),
{
    let lit = crate::text::string_of_seq_str(w);
    t.eq(&lit)
}

} // verus!
