//! Reading back what the printer writes.
//!
//! A document is *printable* when every piece of it survives the printed
//! form: the numbers and confidences are literals the reader accepts,
//! annotation arguments hold no `)`, property keys can be written bare, the
//! root carries no confidence and no `@cson` annotation, and so on (see
//! `printable_doc`). For such a document, reading the printed text gives the
//! document back and consumes all of it.
use vstd::prelude::*;

use crate::grammar::{
    cson_version, doc_at, empty_object_node, section_add, doc_finish, doc_start, parse_doc, DocState, kv_at, arr_at, key_at, obj_at, keyword_at, trim_quotes, trim_quotes_end, trim_quotes_start, val_at, lemma_skip_ws, meta_at, trail_anns, ann_at, ann_props, at, conf_at, props_at, qstr, scan, skip_comment, skip_ws, starts_at,
    stops, trim, trim_end, trim_start, ws_end, rem, Stop,
};
use crate::tokens::{
    lemma_conf_some, float_char, lemma_bare_scan_inside, lemma_float_token, lemma_float_trim, blank, gap, lemma_gap_skip, lemma_mat_char, lemma_mat_split, lemma_quoted, mat,
    token_start,
};
use crate::model::{
    SDocument, key_text, SKey, SNode, SValue, assoc_insert, distinct_keys, has_key, key_index, lemma_key_index, SAnnotation,
};
use crate::print::{
    bare_prop_key, printed_prop_key,    doc_tail, has_pairs, root_anns_text,
    doc_pairs, printed_doc, items_text, pairs_text, printed_key, printed_node, printed_pair, escape, escape_all, printed_value, anns_text, key_breaker, lemma_trim_end_len, lemma_trim_start_len, printed_annotation, prop_text,
    props_text, quoted, safe_bare_key,
};
use crate::number::{digits_end, in_unit_interval, is_float_literal};
use crate::text::{alnum, is_ws};

verus! {

// ---------------------------------------------------------------------------
// Which documents print faithfully
// ---------------------------------------------------------------------------

/// A character an annotation name may hold.
pub open spec fn name_char(c: char) -> bool {
    alnum(c) || c == '_'
}

/// An annotation property as the printer writes it: the reader takes the
/// key up to `:` as it stands, so the key must be one the printer writes bare.
pub open spec fn printable_prop(k: Seq<char>, v: Seq<char>) -> bool {
    bare_prop_key(k)
}

pub open spec fn printable_ann(a: SAnnotation) -> bool {
    &&& (a.args matches Some(t) ==> forall|i: int| 0 <= i < t.len() ==> #[trigger] t[i] != ')')
    &&& forall|i: int| 0 <= i < a.name.len() ==> #[trigger] name_char(a.name[i])
    &&& distinct_keys(a.properties)
    &&& forall|i: int|
        0 <= i < a.properties.len() ==> #[trigger] printable_prop(
            a.properties[i].0,
            a.properties[i].1,
        )
}

// ---------------------------------------------------------------------------
// Reading positions
// ---------------------------------------------------------------------------

/// `skip_ws` stops at a token (or the end of input), where it stays.
pub(crate) proof fn lemma_skip_ws_fix(s: Seq<char>, p: int)
    requires
        0 <= p <= s.len(),
    ensures
        token_start(s, skip_ws(s, p)),
        skip_ws(s, skip_ws(s, p)) == skip_ws(s, p),
    decreases rem(s, p), 0int,
{
    if p < s.len() {
        if s[p] == '#' || (s[p] == '/' && at(s, p + 1, '/')) {
            lemma_skip_comment_fix(s, p + 1);
        } else if is_ws(s[p]) {
            lemma_skip_ws_fix(s, p + 1);
        }
    }
}

proof fn lemma_skip_comment_fix(s: Seq<char>, p: int)
    requires
        0 <= p <= s.len(),
    ensures
        token_start(s, skip_comment(s, p)),
        skip_ws(s, skip_comment(s, p)) == skip_comment(s, p),
    decreases rem(s, p), 1int,
{
    if p < s.len() && s[p] != '\n' {
        lemma_skip_comment_fix(s, p + 1);
    } else {
        lemma_skip_ws_fix(s, p);
    }
}

/// A scan from `p` that meets no stop before `e` and stops at `e`.
pub(crate) proof fn lemma_scan_to(s: Seq<char>, p: int, k: Stop, e: int)
    requires
        0 <= p <= e <= s.len(),
        forall|i: int| p <= i < e ==> !#[trigger] stops(k, s, i),
        e == s.len() || stops(k, s, e),
    ensures
        scan(s, p, k) == e,
    decreases e - p,
{
    if p < e {
        assert(!stops(k, s, p));
        lemma_scan_to(s, p + 1, k, e);
    }
}

/// A key that may stand bare starts and ends with no blank.
pub(crate) proof fn lemma_trimmed_ends(k: Seq<char>)
    requires
        k.len() > 0,
        trim(k) == k,
    ensures
        !is_ws(k[0]),
        !is_ws(k.last()),
{
    lemma_trim_start_len(k);
    lemma_trim_end_len(trim_start(k));
    if !is_ws(k[0]) {
        assert(trim_start(k) == k);
        lemma_trim_end_len(k);
    }
}

/// Appending to an association list that lacks the key.
pub(crate) proof fn lemma_assoc_insert_new<V>(m: Seq<(Seq<char>, V)>, k: Seq<char>, v: V)
    requires
        !has_key(m, k),
    ensures
        assoc_insert(m, k, v) == m.push((k, v)),
{
    lemma_key_index(m, k);
}

/// A prefix of a list with distinct keys lacks the key of the next entry.
pub(crate) proof fn lemma_distinct_prefix<V>(m: Seq<(Seq<char>, V)>, i: int)
    requires
        distinct_keys(m),
        0 <= i < m.len(),
    ensures
        !has_key(m.take(i), m[i].0),
{
    if has_key(m.take(i), m[i].0) {
        let j = choose|j: int| 0 <= j < m.take(i).len() && #[trigger] m.take(i)[j].0 == m[i].0;
        assert(m[j].0 == m[i].0);
    }
}

// ---------------------------------------------------------------------------
// Annotation properties
// ---------------------------------------------------------------------------

pub(crate) proof fn lemma_bare_key_token(s: Seq<char>, q: int, k: Seq<char>)
    requires
        mat(s, q, k),
        safe_bare_key(k),
        q + k.len() < s.len(),
        s[q + k.len()] == ':',
    ensures
        token_start(s, q),
        scan(s, q, Stop::Char(':')) == q + k.len(),
        s.subrange(q, q + k.len()) == k,
        trim(s.subrange(q, q + k.len())) == k,
{
    lemma_trimmed_ends(k);
    lemma_mat_char(s, q, k, 0);
    assert(!key_breaker(k[0]));
    if k.len() >= 2 {
        lemma_mat_char(s, q, k, 1);
    }
    assert forall|i: int| q <= i < q + k.len() implies !#[trigger] stops(Stop::Char(':'), s, i) by {
        lemma_mat_char(s, q, k, i - q);
        assert(!key_breaker(k[i - q]));
    }
    lemma_scan_to(s, q, Stop::Char(':'), q + k.len());
}

/// A property key written bare reads back as itself.
proof fn lemma_prop_key_token(s: Seq<char>, q: int, k: Seq<char>)
    requires
        0 <= q,
        mat(s, q, k),
        bare_prop_key(k),
        q + k.len() < s.len(),
        s[q + k.len()] == ':',
    ensures
        token_start(s, q),
        s[q] != '}',
        scan(s, q, Stop::Char(':')) == q + k.len(),
        trim(s.subrange(q, q + k.len())) == k,
{
    assert(s.subrange(q, q + k.len()) == k);
    if k.len() == 0 {
        lemma_scan_to(s, q, Stop::Char(':'), q);
        assert(trim_start(k) == k);
        assert(trim_end(k) == k);
    } else {
        lemma_trimmed_ends(k);
        lemma_mat_char(s, q, k, 0);
        if k.len() >= 2 {
            lemma_mat_char(s, q, k, 1);
        }
        assert forall|i: int| q <= i < q + k.len() implies !#[trigger] stops(Stop::Char(':'), s, i) by {
            lemma_mat_char(s, q, k, i - q);
        }
        lemma_scan_to(s, q, Stop::Char(':'), q + k.len());
    }
}

/// One property `k: "v"` whose text starts after the blank at `c`.
proof fn lemma_prop_step(
    s: Seq<char>,
    c: int,
    k: Seq<char>,
    v: Seq<char>,
    acc: Seq<(Seq<char>, Seq<char>)>,
    last: bool,
)
    requires
        0 <= c,
        at(s, c, ' '),
        mat(s, c + 1, prop_text(k, v)),
        printable_prop(k, v),
        !has_key(acc, k),
        last ==> at(s, c + 1 + prop_text(k, v).len(), ' ') && at(
            s,
            c + 2 + prop_text(k, v).len(),
            '}',
        ),
        !last ==> at(s, c + 1 + prop_text(k, v).len(), ',') && at(
            s,
            c + 2 + prop_text(k, v).len(),
            ' ',
        ),
    ensures
        last ==> props_at(s, c, acc) == Ok::<(Seq<(Seq<char>, Seq<char>)>, int), (Seq<char>, int)>(
            (acc.push((k, v)), c + 3 + prop_text(k, v).len()),
        ),
        !last ==> props_at(s, c, acc) == props_at(
            s,
            c + 2 + prop_text(k, v).len(),
            acc.push((k, v)),
        ),
{
    let q1 = c + 1;
    let e = c + 1 + prop_text(k, v).len();
    let kq = k + seq![':', ' '];
    lemma_mat_split(s, q1, kq, quoted(v));
    lemma_mat_split(s, q1, k, seq![':', ' ']);
    lemma_mat_char(s, q1 + k.len(), seq![':', ' '], 0);
    lemma_mat_char(s, q1 + k.len(), seq![':', ' '], 1);
    assert(printed_prop_key(k) == k);
    lemma_prop_key_token(s, q1, k);
    assert(gap(s, c, q1));
    lemma_gap_skip(s, c, q1, c);
    let q3 = q1 + k.len() + 2;
    lemma_mat_char(s, q3, quoted(v), 0);
    assert(token_start(s, q3));
    assert(gap(s, q1 + k.len() + 1, q3));
    lemma_gap_skip(s, q1 + k.len() + 1, q3, q1 + k.len() + 1);
    lemma_quoted(s, q3, v);
    assert(e == q3 + quoted(v).len());
    lemma_assoc_insert_new(acc, k, v);
    assert(skip_ws(s, c) == q1);
    assert(s[q1] != '}');
    assert(scan(s, q1, Stop::Char(':')) == q1 + k.len());
    assert(trim(s.subrange(q1, q1 + k.len())) == k);
    assert(skip_ws(s, q1 + k.len() + 1) == q3);
    assert(at(s, q3, '"'));
    if last {
        assert(gap(s, e, e + 1));
        lemma_gap_skip(s, e, e + 1, e);
        assert(gap(s, e + 1, e + 1));
        lemma_gap_skip(s, e + 1, e + 1, e + 1);
    } else {
        assert(gap(s, e, e));
        lemma_gap_skip(s, e, e, e);
    }
}


proof fn lemma_props_text_step(p: Seq<(Seq<char>, Seq<char>)>, i: int)
    requires
        0 <= i < p.len(),
    ensures
        props_text(p.take(i + 1)) == props_text(p.take(i)) + (if i == 0 {
            Seq::<char>::empty()
        } else {
            seq![',', ' ']
        }) + prop_text(p[i].0, p[i].1),
{
    assert(p.take(i + 1).drop_last() =~= p.take(i));
    assert(p.take(i + 1).last() == p[i]);
    if i == 0 {
        assert(p.take(0).len() == 0);
        assert(props_text(p.take(1)) == prop_text(p.take(1)[0].0, p.take(1)[0].1));
        assert(Seq::<char>::empty() + Seq::<char>::empty() + prop_text(p[0].0, p[0].1) =~= prop_text(
            p[0].0,
            p[0].1,
        ));
    }
}

/// The text of the first `i` properties stands where all of them start.
proof fn lemma_props_text_mat(s: Seq<char>, b: int, p: Seq<(Seq<char>, Seq<char>)>, i: int)
    requires
        mat(s, b, props_text(p)),
        0 <= i <= p.len(),
    ensures
        mat(s, b, props_text(p.take(i))),
    decreases p.len() - i,
{
    if i == p.len() {
        assert(p.take(i) =~= p);
    } else {
        lemma_props_text_mat(s, b, p, i + 1);
        lemma_props_text_step(p, i);
        let sep = if i == 0 {
            Seq::<char>::empty()
        } else {
            seq![',', ' ']
        };
        lemma_mat_split(s, b, props_text(p.take(i)) + sep, prop_text(p[i].0, p[i].1));
        lemma_mat_split(s, b, props_text(p.take(i)), sep);
    }
}

/// Where the blank before property `i` stands, the list starting at `b`.
pub open spec fn prop_pos(b: int, p: Seq<(Seq<char>, Seq<char>)>, i: int) -> int {
    if i == 0 {
        b
    } else {
        b + 2 + props_text(p.take(i)).len()
    }
}

/// The properties `{ k: "v", ... }` after the `{`, from property `i` on.
#[verifier::spinoff_prover]
#[verifier::rlimit(50)]
proof fn lemma_props_from(s: Seq<char>, b: int, p: Seq<(Seq<char>, Seq<char>)>, i: int)
    requires
        0 <= i < p.len(),
        mat(s, b, seq![' '] + props_text(p) + seq![' ', '}']),
        distinct_keys(p),
        forall|j: int| 0 <= j < p.len() ==> #[trigger] printable_prop(p[j].0, p[j].1),
    ensures
        props_at(s, prop_pos(b, p, i), p.take(i)) == Ok::<
            (Seq<(Seq<char>, Seq<char>)>, int),
            (Seq<char>, int),
        >((p, b + 3 + props_text(p).len())),
    decreases p.len() - i,
{
    let pt = props_text(p);
    lemma_mat_split(s, b, seq![' '] + pt, seq![' ', '}']);
    lemma_mat_split(s, b, seq![' '], pt);
    let c = prop_pos(b, p, i);
    lemma_props_text_step(p, i);
    lemma_props_text_mat(s, b + 1, p, i + 1);
    let sep = if i == 0 {
        Seq::<char>::empty()
    } else {
        seq![',', ' ']
    };
    let pre = props_text(p.take(i));
    let pr = prop_text(p[i].0, p[i].1);
    lemma_mat_split(s, b + 1, pre + sep, pr);
    lemma_mat_split(s, b + 1, pre, sep);
    if i == 0 {
        lemma_mat_char(s, b, seq![' '], 0);
    } else {
        lemma_mat_char(s, b + 1 + pre.len(), sep, 1);
    }
    assert(c + 1 == b + 1 + pre.len() + sep.len());
    let e = c + 1 + pr.len();
    lemma_distinct_prefix(p, i);
    assert(p.take(i).push((p[i].0, p[i].1)) =~= p.take(i + 1));
    if i + 1 == p.len() {
        assert(p.take(i + 1) =~= p);
        assert(e == b + 1 + pt.len());
        lemma_mat_char(s, b + 1 + pt.len(), seq![' ', '}'], 0);
        lemma_mat_char(s, b + 1 + pt.len(), seq![' ', '}'], 1);
        lemma_prop_step(s, c, p[i].0, p[i].1, p.take(i), true);
    } else {
        lemma_props_text_step(p, i + 1);
        lemma_props_text_mat(s, b + 1, p, i + 2);
        let pre2 = props_text(p.take(i + 1));
        lemma_mat_split(s, b + 1, pre2 + seq![',', ' '], prop_text(p[i + 1].0, p[i + 1].1));
        lemma_mat_split(s, b + 1, pre2, seq![',', ' ']);
        lemma_mat_char(s, b + 1 + pre2.len(), seq![',', ' '], 0);
        lemma_mat_char(s, b + 1 + pre2.len(), seq![',', ' '], 1);
        assert(e == b + 1 + pre2.len());
        lemma_prop_step(s, c, p[i].0, p[i].1, p.take(i), false);
        lemma_props_from(s, b, p, i + 1);
    }
}

// ---------------------------------------------------------------------------
// Annotations
// ---------------------------------------------------------------------------

/// A token that no value, confidence or annotation could take as its own
/// continuation: the end of input, or anything but `@`, `{`, and `~` other
/// than the `~"` of a semantic key. (A `(` is taken as the arguments of an
/// annotation that has no properties: see `open_end`.)
pub open spec fn follow_token(s: Seq<char>, f: int) -> bool {
    f == s.len() || (0 <= f < s.len() && s[f] != '@' && s[f] != '{' && (s[f] == '~' ==> at(
        s,
        f + 1,
        '"',
    )))
}

/// When the last annotation of a node has no properties, what follows the
/// node does not start with `(`, which would read as that annotation's
/// arguments.
pub open spec fn open_end(s: Seq<char>, e: int, a: Seq<SAnnotation>) -> bool {
    a.len() > 0 && a.last().properties.len() == 0 ==> !at(s, skip_ws(s, e), '(')
}

/// What may follow a node: `,`, `]`, a newline or the end of input, and after
/// the blanks a token that the node cannot take.
pub open spec fn node_follow(s: Seq<char>, e: int) -> bool {
    &&& 0 <= e <= s.len()
    &&& (e == s.len() || s[e] == ',' || s[e] == ']' || s[e] == '\n')
    &&& follow_token(s, skip_ws(s, e))
}

/// What may follow an annotation: the next annotation (on the same line, or
/// on the next as among the annotations of a document), or the end of its
/// node.
pub open spec fn ann_follow(s: Seq<char>, e: int) -> bool {
    ((at(s, e, ' ') || at(s, e, '\n')) && at(s, e + 1, '@')) || node_follow(s, e)
}

/// Where reading an annotation that ends at `e` stops.
pub open spec fn ann_ret(s: Seq<char>, e: int, x: SAnnotation) -> int {
    if x.properties.len() == 0 {
        skip_ws(s, e)
    } else {
        e
    }
}

/// The text of an annotation after its name: its arguments, if any.
pub open spec fn args_part(x: SAnnotation) -> Seq<char> {
    match x.args {
        Some(t) => seq!['('] + t + seq![')'],
        None => Seq::empty(),
    }
}

/// The text of an annotation after its arguments: its properties, if any.
pub open spec fn props_part(x: SAnnotation) -> Seq<char> {
    if x.properties.len() == 0 {
        Seq::<char>::empty()
    } else {
        seq![' ', '{', ' '] + props_text(x.properties) + seq![' ', '}']
    }
}

/// The properties of an annotation, read from `r0` (after its name and
/// arguments).
#[verifier::spinoff_prover]
#[verifier::rlimit(50)]
proof fn lemma_ann_props(s: Seq<char>, r0: int, x: SAnnotation)
    requires
        0 <= r0,
        mat(s, r0, props_part(x)),
        printable_ann(x),
        ann_follow(s, r0 + props_part(x).len()),
    ensures
        ann_props(s, skip_ws(s, r0), x.name, x.args) == Ok::<(SAnnotation, int), (Seq<char>, int)>(
            (x, ann_ret(s, r0 + props_part(x).len(), x)),
        ),
{
    let e = r0 + props_part(x).len();
    lemma_skip_ws_fix(s, e);
    lemma_skip_ws(s, e);
    if x.properties.len() == 0 {
        let f = skip_ws(s, e);
        if (at(s, e, ' ') || at(s, e, '\n')) && at(s, e + 1, '@') {
            assert(gap(s, e, e + 1));
            lemma_gap_skip(s, e, e + 1, e);
        }
        assert(!at(s, f, '{'));
        assert(x.properties =~= Seq::<(Seq<char>, Seq<char>)>::empty());
    } else {
        let pt = props_text(x.properties);
        lemma_mat_split(s, r0, seq![' ', '{', ' '] + pt, seq![' ', '}']);
        lemma_mat_split(s, r0, seq![' ', '{', ' '], pt);
        lemma_mat_char(s, r0, seq![' ', '{', ' '], 0);
        lemma_mat_char(s, r0, seq![' ', '{', ' '], 1);
        assert(gap(s, r0, r0 + 1));
        lemma_gap_skip(s, r0, r0 + 1, r0);
        assert(seq![' ', '{', ' '] + pt + seq![' ', '}'] =~= seq![' ', '{'] + (seq![' '] + pt
            + seq![' ', '}']));
        lemma_mat_split(s, r0, seq![' ', '{'], seq![' '] + pt + seq![' ', '}']);
        lemma_props_from(s, r0 + 2, x.properties, 0);
        assert(x.properties.take(0) =~= Seq::<(Seq<char>, Seq<char>)>::empty());
    }
}

#[verifier::spinoff_prover]
#[verifier::rlimit(50)]
pub(crate) proof fn lemma_ann(s: Seq<char>, a: int, x: SAnnotation)
    requires
        0 <= a,
        mat(s, a, printed_annotation(x)),
        printable_ann(x),
        ann_follow(s, a + printed_annotation(x).len()),
        x.properties.len() == 0 ==> !at(s, skip_ws(s, a + printed_annotation(x).len()), '('),
    ensures
        ann_at(s, a) == Ok::<(SAnnotation, int), (Seq<char>, int)>(
            (x, ann_ret(s, a + printed_annotation(x).len(), x)),
        ),
        a + printed_annotation(x).len() <= ann_ret(s, a + printed_annotation(x).len(), x),
        skip_ws(s, ann_ret(s, a + printed_annotation(x).len(), x)) == skip_ws(
            s,
            a + printed_annotation(x).len(),
        ),
{
    let e = a + printed_annotation(x).len();
    let head = seq!['@'] + x.name;
    let ap = args_part(x);
    let pp = props_part(x);
    assert(printed_annotation(x) =~= head + ap + pp);
    lemma_mat_split(s, a, head + ap, pp);
    lemma_mat_split(s, a, head, ap);
    lemma_mat_split(s, a, seq!['@'], x.name);
    let ne = a + 1 + x.name.len();
    let r0 = ne + ap.len();
    assert forall|i: int| a + 1 <= i < ne implies !#[trigger] stops(Stop::NameEnd, s, i) by {
        lemma_mat_char(s, a + 1, x.name, i - a - 1);
        assert(name_char(x.name[i - a - 1]));
    }
    lemma_skip_ws_fix(s, e);
    lemma_skip_ws(s, e);
    assert(s.subrange(a + 1, ne) == x.name);
    lemma_ann_props(s, r0, x);
    match x.args {
        Some(t) => {
            lemma_mat_split(s, ne, seq!['('] + t, seq![')']);
            lemma_mat_split(s, ne, seq!['('], t);
            lemma_mat_char(s, ne, seq!['('], 0);
            lemma_mat_char(s, ne + 1 + t.len(), seq![')'], 0);
            lemma_scan_to(s, a + 1, Stop::NameEnd, ne);
            assert(token_start(s, ne));
            assert(gap(s, ne, ne));
            lemma_gap_skip(s, ne, ne, ne);
            assert forall|i: int| ne + 1 <= i < ne + 1 + t.len() implies !#[trigger] stops(
                Stop::Char(')'),
                s,
                i,
            ) by {
                lemma_mat_char(s, ne + 1, t, i - ne - 1);
            }
            lemma_scan_to(s, ne + 1, Stop::Char(')'), ne + 1 + t.len());
            assert(s.subrange(ne + 1, ne + 1 + t.len()) == t);
        },
        None => {
            if x.properties.len() == 0 {
                assert(ne == e);
                assert(ne == s.len() || s[ne] == ' ' || s[ne] == ',' || s[ne] == ']' || s[ne]
                    == '\n');
                if (at(s, e, ' ') || at(s, e, '\n')) && at(s, e + 1, '@') {
                    assert(gap(s, e, e + 1));
                    lemma_gap_skip(s, e, e + 1, e);
                }
            } else {
                lemma_mat_char(s, ne, pp, 0);
                lemma_mat_char(s, ne, pp, 1);
                assert(gap(s, ne, ne + 1));
                lemma_gap_skip(s, ne, ne + 1, ne);
            }
            lemma_scan_to(s, a + 1, Stop::NameEnd, ne);
            lemma_skip_ws_fix(s, ne);
        },
    }
}

// ---------------------------------------------------------------------------
// Printable nodes
// ---------------------------------------------------------------------------

/// An annotation that may trail an array element: its name does not start
/// with `synthesize`, which would read as a value.
pub open spec fn trail_ok(x: SAnnotation) -> bool {
    !(x.name.len() >= 10 && x.name.take(10) == "synthesize"@)
}

/// Text that may stand inside `@synthesize("...")`: the printer writes it as
/// it is, and the reader takes it back up to the `)` with its quotes removed.
pub open spec fn synth_text(t: Seq<char>) -> bool {
    forall|i: int|
        0 <= i < t.len() ==> #[trigger] t[i] != '"' && t[i] != '\\' && t[i] != '\n' && t[i]
            != '\t' && t[i] != '\r' && t[i] != ')'
}

pub open spec fn conf_ok(c: Option<Seq<char>>) -> bool {
    match c {
        Some(x) => is_float_literal(x) && in_unit_interval(x),
        None => true,
    }
}

/// A key the printer writes bare and that starts with `(`.
pub open spec fn paren_key(k: Seq<char>) -> bool {
    !(k.len() > 0 && k[0] == '~') && safe_bare_key(k) && k[0] == '('
}

/// The node ends with an annotation that has no properties.
pub open spec fn ends_open(n: SNode) -> bool {
    n.annotations.len() > 0 && n.annotations.last().properties.len() == 0
}

/// The key the reader gives for the stored key `k`.
pub open spec fn key_of(k: Seq<char>) -> SKey {
    if k.len() > 0 && k[0] == '~' {
        SKey::Semantic(k.skip(1))
    } else {
        SKey::Exact(k)
    }
}

pub open spec fn printable_node(n: SNode) -> bool
    decreases n, 1int,
{
    &&& printable_value(n.value)
    &&& conf_ok(n.confidence)
    &&& forall|j: int| 0 <= j < n.annotations.len() ==> #[trigger] printable_ann(n.annotations[j])
}

pub open spec fn printable_value(v: SValue) -> bool
    decreases v, 0int,
{
    match v {
        SValue::Str(t) => true,
        SValue::Number(t) => is_float_literal(t),
        SValue::Boolean(_) => true,
        SValue::Null => true,
        SValue::Synthesize(t) => synth_text(t),
        SValue::Object(m) => distinct_keys(m) && printable_pairs(m, m.len() as int),
        SValue::Array(items) => printable_items(items),
    }
}

/// The first `i` pairs of an object print faithfully.
pub open spec fn printable_pairs(m: Seq<(Seq<char>, SNode)>, i: int) -> bool
    decreases m, i,
{
    if i <= 0 || i > m.len() {
        true
    } else {
        printable_pairs(m, i - 1) && printable_node(m[i - 1].1)
    }
}

/// The elements of an array print faithfully, their annotations included.
pub open spec fn printable_items(items: Seq<SNode>) -> bool
    decreases items, 0int,
{
    if items.len() == 0 {
        true
    } else {
        &&& printable_items(items.drop_last())
        &&& printable_node(items.last())
        &&& forall|j: int|
            0 <= j < items.last().annotations.len() ==> #[trigger] trail_ok(
                items.last().annotations[j],
            )
    }
}

/// Indentation: blanks only.
pub open spec fn ind_ok(ind: Seq<char>) -> bool {
    forall|i: int| 0 <= i < ind.len() ==> #[trigger] ind[i] == ' '
}


// ---------------------------------------------------------------------------
// The annotations of a node
// ---------------------------------------------------------------------------

proof fn lemma_anns_text_step(a: Seq<SAnnotation>, i: int)
    requires
        0 <= i < a.len(),
    ensures
        anns_text(a.take(i + 1)) == anns_text(a.take(i)) + seq![' '] + printed_annotation(a[i]),
{
    assert(a.take(i + 1).drop_last() =~= a.take(i));
    assert(a.take(i + 1).last() == a[i]);
}

proof fn lemma_anns_text_mat(s: Seq<char>, b: int, a: Seq<SAnnotation>, i: int)
    requires
        mat(s, b, anns_text(a)),
        0 <= i <= a.len(),
    ensures
        mat(s, b, anns_text(a.take(i))),
    decreases a.len() - i,
{
    if i == a.len() {
        assert(a.take(i) =~= a);
    } else {
        lemma_anns_text_mat(s, b, a, i + 1);
        lemma_anns_text_step(a, i);
        lemma_mat_split(s, b, anns_text(a.take(i)) + seq![' '], printed_annotation(a[i]));
        lemma_mat_split(s, b, anns_text(a.take(i)), seq![' ']);
    }
}

/// Reading the metadata after a value depends on where the blanks end only.
pub(crate) proof fn lemma_meta_canon(
    s: Seq<char>,
    q: int,
    c: Option<Seq<char>>,
    a: Seq<SAnnotation>,
)
    requires
        0 <= q <= s.len(),
    ensures
        meta_at(s, q, c, a) == meta_at(s, skip_ws(s, q), c, a),
{
    lemma_skip_ws_fix(s, q);
}

/// Annotation `i` of `a`, whose text starts at `b`: where it starts, and
/// that it is read as it was written.
#[verifier::spinoff_prover]
#[verifier::rlimit(50)]
proof fn lemma_ann_in_list(s: Seq<char>, b: int, a: Seq<SAnnotation>, i: int)
    requires
        0 <= b,
        0 <= i < a.len(),
        mat(s, b, anns_text(a)),
        forall|j: int| 0 <= j < a.len() ==> #[trigger] printable_ann(a[j]),
        node_follow(s, b + anns_text(a).len()),
        open_end(s, b + anns_text(a).len(), a),
    ensures
        ({
            let ai = b + anns_text(a.take(i)).len();
            let ei = b + anns_text(a.take(i + 1)).len();
            &&& ei == ai + 1 + printed_annotation(a[i]).len()
            &&& mat(s, ai + 1, printed_annotation(a[i]))
            &&& skip_ws(s, ai) == ai + 1
            &&& at(s, ai, ' ')
            &&& at(s, ai + 1, '@')
            &&& ann_follow(s, ei)
            &&& ann_at(s, ai + 1) == Ok::<(SAnnotation, int), (Seq<char>, int)>(
                (a[i], ann_ret(s, ei, a[i])),
            )
            &&& ei <= ann_ret(s, ei, a[i])
            &&& skip_ws(s, ann_ret(s, ei, a[i])) == skip_ws(s, ei)
        }),
{
    let ai = b + anns_text(a.take(i)).len();
    lemma_ann_place(s, b, a, i);
    lemma_ann_next(s, b, a, i);
    lemma_ann(s, ai + 1, a[i]);
}

proof fn lemma_ann_place(s: Seq<char>, b: int, a: Seq<SAnnotation>, i: int)
    requires
        0 <= b,
        0 <= i < a.len(),
        mat(s, b, anns_text(a)),
    ensures
        ({
            let ai = b + anns_text(a.take(i)).len();
            let ei = b + anns_text(a.take(i + 1)).len();
            &&& ei == ai + 1 + printed_annotation(a[i]).len()
            &&& mat(s, ai + 1, printed_annotation(a[i]))
            &&& skip_ws(s, ai) == ai + 1
            &&& at(s, ai, ' ')
            &&& at(s, ai + 1, '@')
        }),
{
    let ai = b + anns_text(a.take(i)).len();
    lemma_anns_text_step(a, i);
    lemma_anns_text_mat(s, b, a, i + 1);
    lemma_mat_split(s, b, anns_text(a.take(i)) + seq![' '], printed_annotation(a[i]));
    lemma_mat_split(s, b, anns_text(a.take(i)), seq![' ']);
    lemma_mat_char(s, ai, seq![' '], 0);
    lemma_mat_char(s, ai + 1, printed_annotation(a[i]), 0);
    assert(token_start(s, ai + 1));
    assert(gap(s, ai, ai + 1));
    lemma_gap_skip(s, ai, ai + 1, ai);
}

/// What follows annotation `i`: the next one, or the end of the node.
proof fn lemma_ann_next(s: Seq<char>, b: int, a: Seq<SAnnotation>, i: int)
    requires
        0 <= b,
        0 <= i < a.len(),
        mat(s, b, anns_text(a)),
        node_follow(s, b + anns_text(a).len()),
        open_end(s, b + anns_text(a).len(), a),
    ensures
        ({
            let ei = b + anns_text(a.take(i + 1)).len();
            &&& ann_follow(s, ei)
            &&& (a[i].properties.len() == 0 ==> !at(s, skip_ws(s, ei), '('))
        }),
{
    let ei = b + anns_text(a.take(i + 1)).len();
    if i + 1 < a.len() {
        lemma_ann_place(s, b, a, i + 1);
        assert(token_start(s, ei + 1));
        assert(gap(s, ei, ei + 1));
        lemma_gap_skip(s, ei, ei + 1, ei);
    } else {
        assert(a.take(i + 1) =~= a);
        assert(a.last() == a[i]);
    }
}

/// At the end of a node, nothing more is read as its metadata.
proof fn lemma_meta_end(s: Seq<char>, e: int, c: Option<Seq<char>>, a: Seq<SAnnotation>)
    requires
        node_follow(s, e),
    ensures
        meta_at(s, e, c, a) == Ok::<((Option<Seq<char>>, Seq<SAnnotation>), int), (Seq<char>, int)>(
            ((c, a), skip_ws(s, e)),
        ),
        !at(s, skip_ws(s, e), '@'),
        conf_at(s, skip_ws(s, e)) == Ok::<(Option<Seq<char>>, int), (Seq<char>, int)>(
            (None, skip_ws(s, e)),
        ),
{
    let f = skip_ws(s, e);
    lemma_skip_ws(s, e);
    if f < s.len() && s[f] == '~' {
        assert(ws_end(s, f + 1) == f + 1);
    }
}

/// The metadata reader takes the annotations of `a` (from annotation `i` on)
/// and stops at the end of the node.
#[verifier::spinoff_prover]
#[verifier::rlimit(50)]
proof fn lemma_anns_meta(
    s: Seq<char>,
    b: int,
    a: Seq<SAnnotation>,
    c: Option<Seq<char>>,
    i: int,
)
    requires
        0 <= b,
        0 <= i <= a.len(),
        mat(s, b, anns_text(a)),
        forall|j: int| 0 <= j < a.len() ==> #[trigger] printable_ann(a[j]),
        node_follow(s, b + anns_text(a).len()),
        open_end(s, b + anns_text(a).len(), a),
    ensures
        meta_at(s, b + anns_text(a.take(i)).len(), c, a.take(i)) == Ok::<
            ((Option<Seq<char>>, Seq<SAnnotation>), int),
            (Seq<char>, int),
        >(((c, a), skip_ws(s, b + anns_text(a).len()))),
    decreases a.len() - i,
{
    if i == a.len() {
        assert(a.take(i) =~= a);
        lemma_meta_end(s, b + anns_text(a).len(), c, a);
    } else {
        lemma_ann_in_list(s, b, a, i);
        let ei = b + anns_text(a.take(i + 1)).len();
        let r = ann_ret(s, ei, a[i]);
        lemma_skip_ws(s, ei);
        lemma_anns_text_mat(s, b, a, i + 1);
        lemma_meta_canon(s, r, c, a.take(i).push(a[i]));
        lemma_meta_canon(s, ei, c, a.take(i).push(a[i]));
        assert(a.take(i).push(a[i]) =~= a.take(i + 1));
        lemma_anns_meta(s, b, a, c, i + 1);
    }
}

/// An annotation whose name does not start with `synthesize` is not taken
/// for a `@synthesize` value.
proof fn lemma_not_synth(s: Seq<char>, q: int, x: SAnnotation)
    requires
        0 <= q,
        mat(s, q, printed_annotation(x)),
        printable_ann(x),
        trail_ok(x),
        ann_follow(s, q + printed_annotation(x).len()),
    ensures
        !starts_at(s, q, "@synthesize"@),
{
    reveal_strlit("@synthesize");
    reveal_strlit("synthesize");
    let head = seq!['@'] + x.name;
    let tail = args_part(x) + props_part(x);
    assert(printed_annotation(x) =~= head + tail);
    lemma_mat_split(s, q, head, tail);
    if starts_at(s, q, "@synthesize"@) {
        assert forall|j: int| 0 <= j < 11 implies s[q + j] == "@synthesize"@[j] by {
            assert(s.subrange(q, q + 11)[j] == s[q + j]);
        }
        if x.name.len() >= 10 {
            assert forall|j: int| 0 <= j < 10 implies x.name.take(10)[j] == "synthesize"@[j] by {
                lemma_mat_char(s, q, head, j + 1);
            }
            assert(x.name.take(10) =~= "synthesize"@);
        } else {
            let j: int = x.name.len() as int;
            let e = q + printed_annotation(x).len();
            if tail.len() == 0 {
                assert(q + 1 + j == e);
            } else {
                lemma_mat_char(s, q + 1 + j, tail, 0);
                if x.args is None {
                    assert(tail[0] == ' ');
                } else {
                    assert(tail[0] == '(');
                }
            }
            assert(s[q + 1 + j] == "@synthesize"@[j + 1int]);
        }
    }
}

/// The reader of trailing annotations takes those of `a` (from annotation `i`
/// on, reading from any `r` whose blanks end where annotation `i` starts) and
/// stops at the end of the node.
#[verifier::spinoff_prover]
#[verifier::rlimit(50)]
proof fn lemma_anns_trail(s: Seq<char>, b: int, a: Seq<SAnnotation>, r: int, i: int)
    requires
        0 <= b,
        0 <= i <= a.len(),
        0 <= r <= s.len(),
        mat(s, b, anns_text(a)),
        forall|j: int| 0 <= j < a.len() ==> #[trigger] printable_ann(a[j]),
        forall|j: int| 0 <= j < a.len() ==> #[trigger] trail_ok(a[j]),
        node_follow(s, b + anns_text(a).len()),
        open_end(s, b + anns_text(a).len(), a),
        skip_ws(s, r) == skip_ws(s, b + anns_text(a.take(i)).len()),
    ensures
        trail_anns(s, r, a.take(i)) is Ok,
        trail_anns(s, r, a.take(i))->Ok_0.0 == a,
        r <= trail_anns(s, r, a.take(i))->Ok_0.1 <= s.len(),
        skip_ws(s, trail_anns(s, r, a.take(i))->Ok_0.1) == skip_ws(s, b + anns_text(a).len()),
    decreases a.len() - i,
{
    if i == a.len() {
        assert(a.take(i) =~= a);
        lemma_meta_end(s, b + anns_text(a).len(), None, a);
    } else {
        lemma_ann_in_list(s, b, a, i);
        let ai = b + anns_text(a.take(i)).len();
        let ei = b + anns_text(a.take(i + 1)).len();
        let r2 = ann_ret(s, ei, a[i]);
        lemma_anns_text_mat(s, b, a, i + 1);
        lemma_anns_text_mat(s, b, a, i);
        lemma_not_synth(s, ai + 1, a[i]);
        lemma_skip_ws(s, r);
        lemma_skip_ws(s, ei);
        lemma_skip_ws_fix(s, ei);
        assert(a.take(i).push(a[i]) =~= a.take(i + 1));
        lemma_anns_trail(s, b, a, r2, i + 1);
    }
}


// ---------------------------------------------------------------------------
// Values
// ---------------------------------------------------------------------------

/// What may follow a value: its confidence or its first annotation, or the
/// end of its node.
pub open spec fn value_follow(s: Seq<char>, e: int) -> bool {
    (at(s, e, ' ') && (at(s, e + 1, '~') || at(s, e + 1, '@'))) || node_follow(s, e)
}

/// A value together with what reading its confidence gave.
pub open spec fn with_conf(v: SValue, r: Result<(Option<Seq<char>>, int), (Seq<char>, int)>) -> Result<
    ((SValue, Option<Seq<char>>), int),
    (Seq<char>, int),
> {
    match r {
        Err(x) => Err(x),
        Ok((c, q)) => Ok(((v, c), q)),
    }
}

/// A value start is a token that closes nothing.
pub open spec fn value_start(s: Seq<char>, p: int) -> bool {
    0 <= p < s.len() && token_start(s, p) && s[p] != ']' && s[p] != '}'
}

proof fn lemma_not_keyword(s: Seq<char>, p: int, w: Seq<char>, i: int)
    requires
        0 <= i < w.len(),
        p + i < s.len(),
        s[p + i] != w[i],
    ensures
        !keyword_at(s, p, w),
{
    if starts_at(s, p, w) {
        assert(s.subrange(p, p + w.len())[i] == s[p + i]);
    }
}

#[verifier::spinoff_prover]
#[verifier::rlimit(50)]
proof fn lemma_value_number(s: Seq<char>, p: int, t: Seq<char>)
    requires
        0 <= p,
        mat(s, p, t),
        is_float_literal(t),
        value_follow(s, p + t.len()),
    ensures
        value_start(s, p),
        val_at(s, p) == with_conf(SValue::Number(t), conf_at(s, skip_ws(s, p + t.len()))),
{
    reveal_strlit("true");
    reveal_strlit("false");
    reveal_strlit("null");
    lemma_float_token(t);
    lemma_mat_char(s, p, t, 0);
    let e = p + t.len();
    assert(float_char(t[0]));
    assert(token_start(s, p));
    assert(gap(s, p, p));
    lemma_gap_skip(s, p, p, p);
    lemma_not_keyword(s, p, "true"@, 0);
    lemma_not_keyword(s, p, "false"@, 0);
    if t[0] == 'n' {
        lemma_mat_char(s, p, t, 1);
        lemma_not_keyword(s, p, "null"@, 1);
    } else {
        lemma_not_keyword(s, p, "null"@, 0);
    }
    lemma_bare_scan_inside(s, p, t, p);
    lemma_float_trim(t);
    if at(s, e, ' ') && at(s, e + 1, '~') {
        assert(ws_end(s, e + 1) == e + 1);
        assert(ws_end(s, e) == e + 1);
        assert(!stops(Stop::BareEnd, s, e));
        lemma_scan_to(s, e, Stop::BareEnd, e + 1);
        assert(s.subrange(p, e + 1) =~= t.push(' '));
        assert(token_start(s, e + 1));
        assert(gap(s, e, e + 1));
        lemma_gap_skip(s, e, e + 1, e);
        lemma_gap_skip(s, e, e + 1, e + 1);
    } else {
        if at(s, e, ' ') {
            assert(at(s, e + 1, '@'));
            assert(ws_end(s, e + 1) == e + 1);
            assert(ws_end(s, e) == e + 1);
        }
        assert(e == s.len() || stops(Stop::BareEnd, s, e));
        lemma_scan_to(s, e, Stop::BareEnd, e);
        assert(s.subrange(p, e) =~= t);
    }
}

#[verifier::spinoff_prover]
#[verifier::rlimit(50)]
proof fn lemma_value_keyword(s: Seq<char>, p: int, v: SValue, ind: Seq<char>)
    requires
        0 <= p,
        v is Boolean || v is Null,
        mat(s, p, printed_value(v, ind)),
        value_follow(s, p + printed_value(v, ind).len()),
    ensures
        value_start(s, p),
        val_at(s, p) == with_conf(v, conf_at(s, skip_ws(s, p + printed_value(v, ind).len()))),
{
    reveal_strlit("true");
    reveal_strlit("false");
    reveal_strlit("null");
    let t = printed_value(v, ind);
    let e = p + t.len();
    lemma_mat_char(s, p, t, 0);
    lemma_mat_char(s, p, t, 1);
    assert(token_start(s, p));
    assert(gap(s, p, p));
    lemma_gap_skip(s, p, p, p);
    assert(e == s.len() || !alnum(s[e]));
    match v {
        SValue::Boolean(b) => {
            if b {
                assert(t =~= "true"@);
                assert(s.subrange(p, p + 4) == t);
                assert(keyword_at(s, p, "true"@));
            } else {
                assert(t =~= "false"@);
                lemma_not_keyword(s, p, "true"@, 0);
                assert(s.subrange(p, p + 5) == t);
                assert(keyword_at(s, p, "false"@));
            }
        },
        _ => {
            assert(t =~= "null"@);
            lemma_not_keyword(s, p, "true"@, 0);
            lemma_not_keyword(s, p, "false"@, 0);
            assert(s.subrange(p, p + 4) == t);
            assert(keyword_at(s, p, "null"@));
        },
    }
}

proof fn lemma_value_str(s: Seq<char>, p: int, t: Seq<char>)
    requires
        0 <= p,
        mat(s, p, quoted(t)),
    ensures
        value_start(s, p),
        val_at(s, p) == with_conf(SValue::Str(t), conf_at(s, skip_ws(s, p + quoted(t).len()))),
{
    lemma_mat_char(s, p, quoted(t), 0);
    assert(token_start(s, p));
    assert(gap(s, p, p));
    lemma_gap_skip(s, p, p, p);
    lemma_quoted(s, p, t);
}

proof fn lemma_escape_synth(t: Seq<char>)
    requires
        synth_text(t),
    ensures
        escape_all(t) == t,
    decreases t.len(),
{
    if t.len() > 0 {
        assert(synth_text(t.drop_last()));
        lemma_escape_synth(t.drop_last());
        let c = t.last();
        assert(t[t.len() - 1] != '"');
        assert(escape(c) == seq![c]);
        assert(t.drop_last().push(c) =~= t);
    }
}

proof fn lemma_trim_quotes_synth(t: Seq<char>)
    requires
        synth_text(t),
    ensures
        trim_quotes(seq!['"'] + t + seq!['"']) == t,
{
    let w = seq!['"'] + t + seq!['"'];
    assert(w.drop_first() =~= t.push('"'));
    if t.len() == 0 {
        assert(t.push('"').drop_first() =~= Seq::<char>::empty());
        assert(trim_quotes_start(t.push('"')) == trim_quotes_start(Seq::<char>::empty()));
        assert(trim_quotes_start(w) == Seq::<char>::empty());
        assert(t =~= Seq::<char>::empty());
    } else {
        assert(t.push('"')[0] == t[0]);
        assert(t[0] != '"');
        assert(trim_quotes_start(t.push('"')) == t.push('"'));
        assert(w[0] == '"');
        assert(trim_quotes_start(w) == t.push('"'));
        assert(t.push('"').drop_last() =~= t);
        assert(t.last() != '"');
        assert(trim_quotes_end(t) == t);
    }
}

#[verifier::spinoff_prover]
#[verifier::rlimit(50)]
proof fn lemma_value_synth(s: Seq<char>, p: int, t: Seq<char>, ind: Seq<char>)
    requires
        0 <= p,
        synth_text(t),
        mat(s, p, printed_value(SValue::Synthesize(t), ind)),
        value_follow(s, p + printed_value(SValue::Synthesize(t), ind).len()),
    ensures
        value_start(s, p),
        val_at(s, p) == with_conf(
            SValue::Synthesize(t),
            conf_at(s, skip_ws(s, p + printed_value(SValue::Synthesize(t), ind).len())),
        ),
{
    reveal_strlit("synthesize");
    let head = seq!['@', 's', 'y', 'n', 't', 'h', 'e', 's', 'i', 'z', 'e', '('];
    let body = seq!['"'] + t + seq!['"'];
    lemma_escape_synth(t);
    assert(quoted(t) == body);
    let pv = printed_value(SValue::Synthesize(t), ind);
    assert(pv =~= head + body + seq![')']);
    let e = p + pv.len();
    lemma_mat_split(s, p, head + body, seq![')']);
    lemma_mat_split(s, p, head, body);
    lemma_mat_char(s, p, head, 0);
    assert(token_start(s, p));
    assert(gap(s, p, p));
    lemma_gap_skip(s, p, p, p);
    // the name
    assert forall|i: int| p + 1 <= i < p + 11 implies !#[trigger] stops(Stop::NameEnd, s, i) by {
        lemma_mat_char(s, p, head, i - p);
    }
    lemma_mat_char(s, p, head, 11);
    lemma_scan_to(s, p + 1, Stop::NameEnd, p + 11);
    assert(s.subrange(p + 1, p + 11) =~= "synthesize"@) by {
        assert forall|i: int| 0 <= i < 10 implies s.subrange(p + 1, p + 11)[i] == "synthesize"@[i] by {
            lemma_mat_char(s, p, head, i + 1);
        }
    }
    assert(token_start(s, p + 11));
    assert(gap(s, p + 11, p + 11));
    lemma_gap_skip(s, p + 11, p + 11, p + 11);
    // the argument, up to `)`
    let ce = p + 12 + body.len();
    assert forall|i: int| p + 12 <= i < ce implies !#[trigger] stops(Stop::Char(')'), s, i) by {
        lemma_mat_char(s, p + 12, body, i - p - 12);
        if p + 13 <= i < ce - 1 {
            assert(body[i - p - 12] == t[i - p - 13]);
        }
    }
    lemma_mat_char(s, p + 12 + body.len(), seq![')'], 0);
    lemma_scan_to(s, p + 12, Stop::Char(')'), ce);
    assert(e == ce + 1);
    assert(s.subrange(p + 12, ce) == body);
    lemma_trim_quotes_synth(t);
    // what follows
    lemma_skip_ws_fix(s, e);
    lemma_skip_ws(s, e);
    if at(s, e, ' ') && (at(s, e + 1, '~') || at(s, e + 1, '@')) {
        assert(gap(s, e, e + 1));
        lemma_gap_skip(s, e, e + 1, e);
    }
    assert(!at(s, skip_ws(s, e), '{'));
}


// ---------------------------------------------------------------------------
// Keys, blanks and lists
// ---------------------------------------------------------------------------

/// The text a key is read as, before its `~` marker is put back.
pub open spec fn key_body(k: Seq<char>) -> Seq<char> {
    if k.len() > 0 && k[0] == '~' {
        k.skip(1)
    } else {
        k
    }
}

proof fn lemma_key(s: Seq<char>, t: int, k: Seq<char>)
    requires
        0 <= t,
        mat(s, t, printed_key(k) + seq![':']),
    ensures
        t < s.len(),
        token_start(s, t),
        follow_token(s, t),
        s[t] != '[' && s[t] != '@' && s[t] != '}' && s[t] != ']',
        (s[t] == '~') == (k.len() > 0 && k[0] == '~'),
        key_at(s, if s[t] == '~' { t + 1 } else { t }) == Ok::<(Seq<char>, int), (Seq<char>, int)>(
            (key_body(k), t + printed_key(k).len()),
        ),
        key_text(key_of(k)) == k,
        key_of(k) == (if s[t] == '~' {
            SKey::Semantic(key_body(k))
        } else {
            SKey::Exact(key_body(k))
        }),
        t + printed_key(k).len() < s.len(),
        s[t + printed_key(k).len()] == ':',
        s[t] == '(' ==> paren_key(k),
{
    let pk = printed_key(k);
    lemma_mat_split(s, t, pk, seq![':']);
    lemma_mat_char(s, t + pk.len(), seq![':'], 0);
    if k.len() > 0 && k[0] == '~' {
        assert(seq!['~'] + k.skip(1) =~= k);
        lemma_mat_split(s, t, seq!['~'], quoted(k.skip(1)));
        lemma_mat_char(s, t, seq!['~'], 0);
        lemma_mat_char(s, t + 1, quoted(k.skip(1)), 0);
        lemma_quoted(s, t + 1, k.skip(1));
    } else if safe_bare_key(k) {
        lemma_bare_key_token(s, t, k);
        lemma_mat_char(s, t, k, 0);
        assert(!key_breaker(k[0]));
    } else {
        lemma_mat_char(s, t, quoted(k), 0);
        lemma_quoted(s, t, k);
    }
}

/// Blanks from `l` up to a token: skipping from anywhere among them lands
/// on the token.
proof fn lemma_blank_run(s: Seq<char>, l: int, w: Seq<char>)
    requires
        0 <= l,
        mat(s, l, w),
        forall|j: int| 0 <= j < w.len() ==> #[trigger] blank(w[j]),
        token_start(s, l + w.len()),
    ensures
        forall|r: int| l <= r <= l + w.len() ==> #[trigger] skip_ws(s, r) == l + w.len(),
{
    assert forall|i: int| l <= i < l + w.len() implies #[trigger] blank(s[i]) by {
        lemma_mat_char(s, l, w, i - l);
    }
    assert(gap(s, l, l + w.len()));
    assert forall|r: int| l <= r <= l + w.len() implies #[trigger] skip_ws(s, r) == l + w.len() by {
        lemma_gap_skip(s, l, l + w.len(), r);
    }
}

/// A newline and an indentation are blanks.
proof fn lemma_line_blanks(ind: Seq<char>)
    requires
        ind_ok(ind),
    ensures
        forall|j: int| 0 <= j < (seq!['\n'] + ind).len() ==> #[trigger] blank((seq!['\n'] + ind)[j]),
{
    assert forall|j: int| 0 <= j < (seq!['\n'] + ind).len() implies #[trigger] blank(
        (seq!['\n'] + ind)[j],
    ) by {
        if j > 0 {
            assert((seq!['\n'] + ind)[j] == ind[j - 1]);
        }
    }
}

pub(crate) proof fn lemma_arr_canon(s: Seq<char>, q: int, acc: Seq<SNode>)
    requires
        0 <= q <= s.len(),
    ensures
        arr_at(s, q, acc) == arr_at(s, skip_ws(s, q), acc),
{
    lemma_skip_ws_fix(s, q);
    lemma_skip_ws(s, q);
}

proof fn lemma_pairs_text_mat(
    s: Seq<char>,
    b: int,
    m: Seq<(Seq<char>, SNode)>,
    ind: Seq<char>,
    i: int,
)
    requires
        mat(s, b, pairs_text(m, ind, m.len() as int)),
        0 <= i <= m.len(),
    ensures
        mat(s, b, pairs_text(m, ind, i)),
        i < m.len() ==> mat(
            s,
            b + pairs_text(m, ind, i).len(),
            printed_pair(
                m[i].0,
                m[i].1,
                ind,
                if i + 1 == m.len() {
                    seq!['\n']
                } else {
                    seq![',', '\n']
                },
            ),
        ),
    decreases m.len() - i,
{
    if i < m.len() {
        lemma_pairs_text_mat(s, b, m, ind, i + 1);
        let tr = if i + 1 == m.len() {
            seq!['\n']
        } else {
            seq![',', '\n']
        };
        assert(pairs_text(m, ind, i + 1) == pairs_text(m, ind, i) + printed_pair(
            m[i].0,
            m[i].1,
            ind,
            tr,
        ));
        lemma_mat_split(s, b, pairs_text(m, ind, i), printed_pair(m[i].0, m[i].1, ind, tr));
    }
}

proof fn lemma_items_text_step(items: Seq<SNode>, ind: Seq<char>, i: int)
    requires
        0 <= i < items.len(),
    ensures
        items_text(items.take(i + 1), ind) == items_text(items.take(i), ind) + (if i == 0 {
            Seq::<char>::empty()
        } else {
            seq![',', ' ']
        }) + printed_node(items[i], ind),
{
    assert(items.take(i + 1).drop_last() =~= items.take(i));
    assert(items.take(i + 1).last() == items[i]);
    if i == 0 {
        assert(items.take(0).len() == 0);
        assert(items_text(items.take(1), ind) == printed_node(items.take(1)[0], ind));
        assert(Seq::<char>::empty() + Seq::<char>::empty() + printed_node(items[0], ind)
            =~= printed_node(items[0], ind));
    }
}

proof fn lemma_items_text_mat(s: Seq<char>, b: int, items: Seq<SNode>, ind: Seq<char>, i: int)
    requires
        mat(s, b, items_text(items, ind)),
        0 <= i <= items.len(),
    ensures
        mat(s, b, items_text(items.take(i), ind)),
    decreases items.len() - i,
{
    if i == items.len() {
        assert(items.take(i) =~= items);
    } else {
        lemma_items_text_mat(s, b, items, ind, i + 1);
        lemma_items_text_step(items, ind, i);
        let sep = if i == 0 {
            Seq::<char>::empty()
        } else {
            seq![',', ' ']
        };
        lemma_mat_split(s, b, items_text(items.take(i), ind) + sep, printed_node(items[i], ind));
        lemma_mat_split(s, b, items_text(items.take(i), ind), sep);
    }
}



// ---------------------------------------------------------------------------
// Steps of the object and array readers
// ---------------------------------------------------------------------------

proof fn lemma_obj_step(
    s: Seq<char>,
    nl: int,
    t: int,
    acc: Seq<(Seq<char>, SNode)>,
    key: SKey,
    n: SNode,
    f: int,
)
    requires
        0 <= nl <= t < f <= s.len(),
        skip_ws(s, nl) == t,
        s[t] != '}',
        kv_at(s, t) == Ok::<(Option<(SKey, SNode)>, int), (Seq<char>, int)>((Some((key, n)), f)),
        skip_ws(s, f) == f,
        !has_key(acc, key_text(key)),
    ensures
        obj_at(s, nl, acc) == obj_at(
            s,
            if at(s, f, ',') {
                f + 1
            } else {
                f
            },
            acc.push((key_text(key), n)),
        ),
{
}

proof fn lemma_obj_close(s: Seq<char>, nl: int, t: int, acc: Seq<(Seq<char>, SNode)>)
    requires
        0 <= nl <= t < s.len(),
        skip_ws(s, nl) == t,
        s[t] == '}',
    ensures
        obj_at(s, nl, acc) == Ok::<(SValue, int), (Seq<char>, int)>((SValue::Object(acc), t + 1)),
{
}

proof fn lemma_arr_step(
    s: Seq<char>,
    q: int,
    t: int,
    acc: Seq<SNode>,
    n: SNode,
    r: int,
    r2: int,
    f: int,
)
    requires
        0 <= q <= t < s.len(),
        t < f <= s.len(),
        skip_ws(s, q) == t,
        s[t] != ']',
        val_at(s, t) == Ok::<((SValue, Option<Seq<char>>), int), (Seq<char>, int)>(
            ((n.value, n.confidence), r),
        ),
        trail_anns(s, r, Seq::empty()) == Ok::<(Seq<SAnnotation>, int), (Seq<char>, int)>(
            (n.annotations, r2),
        ),
        skip_ws(s, r2) == f,
        at(s, f, ',') || at(s, f, ']'),
    ensures
        arr_at(s, q, acc) == arr_at(
            s,
            if at(s, f, ',') {
                f + 1
            } else {
                f
            },
            acc.push(n),
        ),
{
    assert(SNode { value: n.value, confidence: n.confidence, annotations: n.annotations } == n);
}

proof fn lemma_arr_close(s: Seq<char>, q: int, t: int, acc: Seq<SNode>)
    requires
        0 <= q <= t < s.len(),
        skip_ws(s, q) == t,
        s[t] == ']',
    ensures
        arr_at(s, q, acc) == Ok::<(SValue, int), (Seq<char>, int)>((SValue::Array(acc), t + 1)),
{
}

/// The pair reader, once the key and the node are known to read back.
proof fn lemma_kv_step(
    s: Seq<char>,
    t: int,
    k: Seq<char>,
    q2: int,
    n: SNode,
    r: int,
    f: int,
)
    requires
        0 <= t < q2,
        q2 + 2 < s.len(),
        skip_ws(s, t) == t,
        s[t] != '[' && s[t] != '@' && s[t] != '}' && s[t] != ']',
        key_at(s, if s[t] == '~' { t + 1 } else { t }) == Ok::<(Seq<char>, int), (Seq<char>, int)>(
            (key_body(k), q2),
        ),
        key_of(k) == (if s[t] == '~' {
            SKey::Semantic(key_body(k))
        } else {
            SKey::Exact(key_body(k))
        }),
        skip_ws(s, q2) == q2,
        s[q2] == ':',
        skip_ws(s, q2 + 1) == q2 + 2,
        val_at(s, q2 + 2) == Ok::<((SValue, Option<Seq<char>>), int), (Seq<char>, int)>(
            ((n.value, n.confidence), r),
        ),
        meta_at(s, r, n.confidence, Seq::empty()) == Ok::<
            ((Option<Seq<char>>, Seq<SAnnotation>), int),
            (Seq<char>, int),
        >(((n.confidence, n.annotations), f)),
    ensures
        kv_at(s, t) == Ok::<(Option<(SKey, SNode)>, int), (Seq<char>, int)>(
            (Some((key_of(k), n)), f),
        ),
{
    assert(SNode { value: n.value, confidence: n.confidence, annotations: n.annotations } == n);
}


// ---------------------------------------------------------------------------
// Where the parts of a printed node stand
// ---------------------------------------------------------------------------

pub open spec fn conf_text(c: Option<Seq<char>>) -> Seq<char> {
    match c {
        Some(x) => seq![' ', '~'] + x,
        None => Seq::empty(),
    }
}

/// Where the annotations of a node printed at `p` start.
pub open spec fn anns_start(p: int, n: SNode, ind: Seq<char>) -> int {
    p + printed_value(n.value, ind).len() + conf_text(n.confidence).len()
}

#[verifier::spinoff_prover]
#[verifier::rlimit(50)]
proof fn lemma_node_layout(s: Seq<char>, p: int, n: SNode, ind: Seq<char>)
    requires
        0 <= p,
        mat(s, p, printed_node(n, ind)),
        printable_node(n),
        node_follow(s, p + printed_node(n, ind).len()),
        open_end(s, p + printed_node(n, ind).len(), n.annotations),
    ensures
        ({
            let ve = p + printed_value(n.value, ind).len();
            let a0 = anns_start(p, n, ind);
            &&& printed_node(n, ind).len() == a0 - p + anns_text(n.annotations).len()
            &&& mat(s, p, printed_value(n.value, ind))
            &&& mat(s, a0, anns_text(n.annotations))
            &&& value_follow(s, ve)
            &&& (n.annotations.len() > 0 ==> at(s, a0, ' ') && at(s, a0 + 1, '@') && skip_ws(s, a0)
                == a0 + 1)
            &&& (n.confidence is Some ==> at(s, ve, ' ') && at(s, ve + 1, '~') && skip_ws(s, ve) == ve
                + 1 && conf_at(s, ve + 1) == Ok::<(Option<Seq<char>>, int), (Seq<char>, int)>(
                (n.confidence, a0),
            ))
            &&& (n.confidence is None ==> a0 == ve && conf_at(s, skip_ws(s, ve)) == Ok::<
                (Option<Seq<char>>, int),
                (Seq<char>, int),
            >((None, skip_ws(s, ve))))
        }),
{
    let pv = printed_value(n.value, ind);
    let cp = conf_text(n.confidence);
    let at_ = anns_text(n.annotations);
    assert(printed_node(n, ind) == pv + cp + at_);
    lemma_mat_split(s, p, pv + cp, at_);
    lemma_mat_split(s, p, pv, cp);
    let ve = p + pv.len();
    let a0 = ve + cp.len();
    if n.annotations.len() > 0 {
        lemma_ann_in_list(s, a0, n.annotations, 0);
        assert(n.annotations.take(0) =~= Seq::<SAnnotation>::empty());
    }
    match n.confidence {
        Some(c) => {
            lemma_mat_char(s, ve, cp, 0);
            lemma_mat_char(s, ve, cp, 1);
            assert(token_start(s, ve + 1));
            assert(gap(s, ve, ve + 1));
            lemma_gap_skip(s, ve, ve + 1, ve);
            lemma_mat_split(s, ve, seq![' ', '~'], c);
            lemma_conf_some(s, ve + 1, c);
        },
        None => {
            if n.annotations.len() == 0 {
                lemma_meta_end(s, a0, None, Seq::empty());
            }
        },
    }
}

/// What reading a node's value gives, once the value reads back.
proof fn lemma_node_val(
    s: Seq<char>,
    p: int,
    v: SValue,
    c: Option<Seq<char>>,
    ve: int,
    a0: int,
)
    requires
        0 <= p < ve <= a0 <= s.len(),
        val_at(s, p) == with_conf(v, conf_at(s, skip_ws(s, ve))),
        c is Some ==> skip_ws(s, ve) == ve + 1 && conf_at(s, ve + 1) == Ok::<
            (Option<Seq<char>>, int),
            (Seq<char>, int),
        >((c, a0)),
        c is None ==> a0 == ve && conf_at(s, skip_ws(s, ve)) == Ok::<
            (Option<Seq<char>>, int),
            (Seq<char>, int),
        >((None, skip_ws(s, ve))),
    ensures
        val_at(s, p) == Ok::<((SValue, Option<Seq<char>>), int), (Seq<char>, int)>(
            (
                (v, c),
                if c is Some {
                    a0
                } else {
                    skip_ws(s, a0)
                },
            ),
        ),
        p < (if c is Some {
            a0
        } else {
            skip_ws(s, a0)
        }) <= s.len(),
        skip_ws(s, if c is Some { a0 } else { skip_ws(s, a0) }) == skip_ws(s, a0),
{
    lemma_skip_ws(s, a0);
    lemma_skip_ws_fix(s, a0);
}

/// No value prints as nothing.
proof fn lemma_printed_value_nonempty(v: SValue, ind: Seq<char>)
    requires
        printable_value(v),
    ensures
        printed_value(v, ind).len() > 0,
{
    match v {
        SValue::Number(t) => {
            lemma_float_token(t);
        },
        SValue::Object(m) => {},
        SValue::Array(items) => {},
        _ => {},
    }
}


/// A pair as the object printer writes it, without indentation and line end.
pub open spec fn kv_text(k: Seq<char>, n: SNode, ind: Seq<char>) -> Seq<char> {
    printed_key(k) + seq![':', ' '] + printed_node(n, ind)
}

/// The position the object reader is at before pair `i` (or the closing
/// brace): the newline that starts its line.
pub open spec fn obj_line(p: int, m: Seq<(Seq<char>, SNode)>, ind: Seq<char>, i: int) -> int {
    p + 1 + pairs_text(m, ind + seq![' ', ' '], i).len()
}

proof fn lemma_newline_ind(s: Seq<char>, nl: int, l: int, ind: Seq<char>)
    requires
        0 <= nl,
        l == nl + 1,
        s[nl] == '\n',
        nl < s.len(),
        mat(s, l, ind),
        ind_ok(ind),
    ensures
        mat(s, nl, seq!['\n'] + ind),
        token_start(s, l + ind.len()) ==> forall|r: int|
            nl <= r <= l + ind.len() ==> #[trigger] skip_ws(s, r) == l + ind.len(),
{
    assert(s.subrange(nl, nl + 1 + ind.len()) =~= seq!['\n'] + ind) by {
        assert forall|j: int| 0 <= j < 1 + ind.len() implies s.subrange(nl, nl + 1 + ind.len())[j]
            == (seq!['\n'] + ind)[j] by {
            if j > 0 {
                lemma_mat_char(s, l, ind, j - 1);
            }
        }
    }
    lemma_line_blanks(ind);
    if token_start(s, l + ind.len()) {
        lemma_blank_run(s, nl, seq!['\n'] + ind);
    }
}

#[verifier::spinoff_prover]
#[verifier::rlimit(50)]
proof fn lemma_obj_layout(s: Seq<char>, p: int, m: Seq<(Seq<char>, SNode)>, ind: Seq<char>, i: int)
    requires
        0 <= p,
        0 <= i < m.len(),
        mat(s, p, printed_value(SValue::Object(m), ind)),
        ind_ok(ind),
    ensures
        ({
            let ind2 = ind + seq![' ', ' '];
            let nl = obj_line(p, m, ind, i);
            let t = nl + 1 + ind2.len();
            let e = t + kv_text(m[i].0, m[i].1, ind2).len();
            let end = p + printed_value(SValue::Object(m), ind).len();
            &&& ind_ok(ind2)
            &&& 0 <= nl < t < e < s.len()
            &&& mat(s, t, kv_text(m[i].0, m[i].1, ind2))
            &&& (token_start(s, t) ==> skip_ws(s, nl) == t)
            &&& (i + 1 < m.len() ==> s[e] == ',' && skip_ws(s, e) == e && obj_line(p, m, ind, i + 1)
                == e + 1)
            &&& (i + 1 == m.len() ==> s[e] == '\n' && skip_ws(s, e) == end - 1 && s[end - 1] == '}'
                && skip_ws(s, end - 1) == end - 1)
        }),
{
    let ind2 = ind + seq![' ', ' '];
    assert(ind_ok(ind2));
    let pt = pairs_text(m, ind2, m.len() as int);
    let pv = printed_value(SValue::Object(m), ind);
    assert(pv == seq!['{', '\n'] + pt + ind + seq!['}']);
    lemma_mat_split(s, p, seq!['{', '\n'] + pt + ind, seq!['}']);
    lemma_mat_split(s, p, seq!['{', '\n'] + pt, ind);
    lemma_mat_split(s, p, seq!['{', '\n'], pt);
    lemma_pairs_text_mat(s, p + 2, m, ind2, i);
    let nl = obj_line(p, m, ind, i);
    if i == 0 {
        lemma_mat_char(s, p, seq!['{', '\n'], 1);
    } else {
        lemma_pairs_text_mat(s, p + 2, m, ind2, i - 1);
        let pp = printed_pair(m[i - 1].0, m[i - 1].1, ind2, seq![',', '\n']);
        assert(pairs_text(m, ind2, i) == pairs_text(m, ind2, i - 1) + pp);
        lemma_mat_char(s, p + 2 + pairs_text(m, ind2, i - 1).len(), pp, pp.len() - 1);
    }
    let k = m[i].0;
    let n = m[i].1;
    let last = i + 1 == m.len();
    let tr = if last {
        seq!['\n']
    } else {
        seq![',', '\n']
    };
    let kv = kv_text(k, n, ind2);
    let l = p + 2 + pairs_text(m, ind2, i).len();
    assert(printed_pair(k, n, ind2, tr) =~= ind2 + kv + tr);
    lemma_mat_split(s, l, ind2 + kv, tr);
    lemma_mat_split(s, l, ind2, kv);
    let t = l + ind2.len();
    let e = t + kv.len();
    lemma_mat_char(s, e, tr, 0);
    lemma_mat_char(s, l + ind2.len(), kv, 0);
    lemma_newline_ind(s, nl, l, ind2);
    assert(pairs_text(m, ind2, i + 1) == pairs_text(m, ind2, i) + printed_pair(k, n, ind2, tr));
    if last {
        let c = p + 2 + pt.len() + ind.len();
        lemma_mat_char(s, c, seq!['}'], 0);
        assert(e == p + 2 + pt.len() - 1);
        assert(token_start(s, c));
        lemma_newline_ind(s, e, e + 1, ind);
        assert(gap(s, c, c));
        lemma_gap_skip(s, c, c, c);
    } else {
        lemma_mat_char(s, e, tr, 1);
        assert(token_start(s, e));
        assert(gap(s, e, e));
        lemma_gap_skip(s, e, e, e);
    }
}

/// Where the array reader is before element `i` (or the closing bracket).
pub open spec fn arr_elem(p: int, items: Seq<SNode>, ind: Seq<char>, i: int) -> int {
    p + 1 + items_text(items.take(i), ind).len() + (if 0 < i < items.len() {
        2int
    } else {
        0int
    })
}

#[verifier::spinoff_prover]
#[verifier::rlimit(50)]
proof fn lemma_arr_layout(s: Seq<char>, p: int, items: Seq<SNode>, ind: Seq<char>, i: int)
    requires
        0 <= p,
        0 <= i < items.len(),
        mat(s, p, printed_value(SValue::Array(items), ind)),
    ensures
        ({
            let c = arr_elem(p, items, ind, i);
            let e = c + printed_node(items[i], ind).len();
            let end = p + printed_value(SValue::Array(items), ind).len();
            &&& 0 <= c <= e < s.len()
            &&& mat(s, c, printed_node(items[i], ind))
            &&& skip_ws(s, e) == e
            &&& node_follow(s, e)
            &&& (i + 1 < items.len() ==> s[e] == ',' && arr_elem(p, items, ind, i + 1) == e + 2 && (
            token_start(s, e + 2) ==> skip_ws(s, e + 1) == e + 2))
            &&& (i + 1 == items.len() ==> s[e] == ']' && e + 1 == end)
        }),
{
    let it = items_text(items, ind);
    let pv = printed_value(SValue::Array(items), ind);
    assert(pv == seq!['['] + it + seq![']']);
    lemma_mat_split(s, p, seq!['['] + it, seq![']']);
    lemma_mat_split(s, p, seq!['['], it);
    let c = arr_elem(p, items, ind, i);
    let n = items[i];
    let pn = printed_node(n, ind);
    lemma_items_text_step(items, ind, i);
    lemma_items_text_mat(s, p + 1, items, ind, i + 1);
    let sep = if i == 0 {
        Seq::<char>::empty()
    } else {
        seq![',', ' ']
    };
    let pre = items_text(items.take(i), ind);
    lemma_mat_split(s, p + 1, pre + sep, pn);
    let e = c + pn.len();
    assert(e == p + 1 + items_text(items.take(i + 1), ind).len());
    if i + 1 < items.len() {
        lemma_items_text_step(items, ind, i + 1);
        lemma_items_text_mat(s, p + 1, items, ind, i + 2);
        let pre2 = items_text(items.take(i + 1), ind);
        lemma_mat_split(s, p + 1, pre2 + seq![',', ' '], printed_node(items[i + 1], ind));
        lemma_mat_split(s, p + 1, pre2, seq![',', ' ']);
        lemma_mat_char(s, e, seq![',', ' '], 0);
        lemma_mat_char(s, e, seq![',', ' '], 1);
        if token_start(s, e + 2) {
            assert(gap(s, e + 1, e + 2));
            lemma_gap_skip(s, e + 1, e + 2, e + 1);
        }
    } else {
        assert(items.take(i + 1) =~= items);
        lemma_mat_char(s, p + 1 + it.len(), seq![']'], 0);
    }
    assert(token_start(s, e));
    assert(gap(s, e, e));
    lemma_gap_skip(s, e, e, e);
}

proof fn lemma_val_bracket(s: Seq<char>, p: int, v: SValue, q: int)
    requires
        0 <= p < s.len(),
        skip_ws(s, p) == p,
        s[p] == '{' || s[p] == '[',
        s[p] == '{' ==> obj_at(s, p + 1, Seq::empty()) == Ok::<(SValue, int), (Seq<char>, int)>(
            (v, q),
        ),
        s[p] == '[' ==> arr_at(s, p + 1, Seq::empty()) == Ok::<(SValue, int), (Seq<char>, int)>(
            (v, q),
        ),
    ensures
        val_at(s, p) == with_conf(v, conf_at(s, skip_ws(s, q))),
{
    reveal_strlit("true");
    reveal_strlit("false");
    reveal_strlit("null");
    lemma_not_keyword(s, p, "true"@, 0);
    lemma_not_keyword(s, p, "false"@, 0);
    lemma_not_keyword(s, p, "null"@, 0);
}


// ---------------------------------------------------------------------------
// Nodes, pairs, objects and arrays, read back together
// ---------------------------------------------------------------------------

proof fn lemma_value(s: Seq<char>, p: int, v: SValue, ind: Seq<char>)
    requires
        0 <= p,
        mat(s, p, printed_value(v, ind)),
        printable_value(v),
        ind_ok(ind),
        value_follow(s, p + printed_value(v, ind).len()),
    ensures
        value_start(s, p),
        val_at(s, p) == with_conf(v, conf_at(s, skip_ws(s, p + printed_value(v, ind).len()))),
    decreases v, 1int,
{
    match v {
        SValue::Str(t) => lemma_value_str(s, p, t),
        SValue::Number(t) => lemma_value_number(s, p, t),
        SValue::Boolean(_) => lemma_value_keyword(s, p, v, ind),
        SValue::Null => lemma_value_keyword(s, p, v, ind),
        SValue::Synthesize(t) => lemma_value_synth(s, p, t, ind),
        SValue::Object(_) => lemma_value_object(s, p, v, ind),
        SValue::Array(_) => lemma_value_array(s, p, v, ind),
    }
}

#[verifier::spinoff_prover]
#[verifier::rlimit(50)]
proof fn lemma_value_object(s: Seq<char>, p: int, v: SValue, ind: Seq<char>)
    requires
        0 <= p,
        v is Object,
        mat(s, p, printed_value(v, ind)),
        printable_value(v),
        ind_ok(ind),
        value_follow(s, p + printed_value(v, ind).len()),
    ensures
        value_start(s, p),
        val_at(s, p) == with_conf(v, conf_at(s, skip_ws(s, p + printed_value(v, ind).len()))),
    decreases v, 0int,
{
    let m = v->Object_0;
    let pv = printed_value(v, ind);
    let end = p + pv.len();
    lemma_mat_char(s, p, pv, 0);
    lemma_mat_char(s, p, pv, 1);
    assert(token_start(s, p));
    assert(gap(s, p, p));
    lemma_gap_skip(s, p, p, p);
    if m.len() == 0 {
        assert(token_start(s, p + 1));
        assert(gap(s, p + 1, p + 1));
        lemma_gap_skip(s, p + 1, p + 1, p + 1);
        assert(m =~= Seq::<(Seq<char>, SNode)>::empty());
        lemma_obj_close(s, p + 1, p + 1, Seq::empty());
    } else {
        assert(decreases_to!(v => m));
        lemma_obj_from(s, p, m, ind, 0);
        assert(m.take(0) =~= Seq::<(Seq<char>, SNode)>::empty());
        assert(pairs_text(m, ind + seq![' ', ' '], 0).len() == 0);
        assert(v == SValue::Object(m));
    }
    lemma_val_bracket(s, p, v, end);
}

#[verifier::spinoff_prover]
#[verifier::rlimit(50)]
proof fn lemma_value_array(s: Seq<char>, p: int, v: SValue, ind: Seq<char>)
    requires
        0 <= p,
        v is Array,
        mat(s, p, printed_value(v, ind)),
        printable_value(v),
        ind_ok(ind),
        value_follow(s, p + printed_value(v, ind).len()),
    ensures
        value_start(s, p),
        val_at(s, p) == with_conf(v, conf_at(s, skip_ws(s, p + printed_value(v, ind).len()))),
    decreases v, 0int,
{
    let items = v->Array_0;
    let pv = printed_value(v, ind);
    let end = p + pv.len();
    lemma_mat_char(s, p, pv, 0);
    lemma_mat_char(s, p, pv, 1);
    assert(token_start(s, p));
    assert(gap(s, p, p));
    lemma_gap_skip(s, p, p, p);
    if items.len() == 0 {
        assert(token_start(s, p + 1));
        assert(gap(s, p + 1, p + 1));
        lemma_gap_skip(s, p + 1, p + 1, p + 1);
        assert(items =~= Seq::<SNode>::empty());
        lemma_arr_close(s, p + 1, p + 1, Seq::empty());
    } else {
        assert(decreases_to!(v => items));
        lemma_arr_from(s, p, items, ind, 0);
        assert(items.take(0) =~= Seq::<SNode>::empty());
        assert(v == SValue::Array(items));
    }
    lemma_val_bracket(s, p, v, end);
}

/// The pairs of the object printed at `p`, from pair `i` on.
#[verifier::spinoff_prover]
#[verifier::rlimit(50)]
proof fn lemma_obj_from(s: Seq<char>, p: int, m: Seq<(Seq<char>, SNode)>, ind: Seq<char>, i: int)
    requires
        0 <= p,
        0 <= i < m.len(),
        mat(s, p, printed_value(SValue::Object(m), ind)),
        printable_value(SValue::Object(m)),
        ind_ok(ind),
    ensures
        obj_at(s, obj_line(p, m, ind, i), m.take(i)) == Ok::<(SValue, int), (Seq<char>, int)>(
            (SValue::Object(m), p + printed_value(SValue::Object(m), ind).len()),
        ),
    decreases m, m.len() - i,
{
    let ind2 = ind + seq![' ', ' '];
    lemma_obj_layout(s, p, m, ind, i);
    let nl = obj_line(p, m, ind, i);
    let t = nl + 1 + ind2.len();
    let k = m[i].0;
    let n = m[i].1;
    let e = t + kv_text(k, n, ind2).len();
    let end = p + printed_value(SValue::Object(m), ind).len();
    lemma_printable_pairs(m, i);
    assert(decreases_to!(m => m[i]));
    assert(decreases_to!(m[i] => m[i].1));
    assert(open_end(s, e, n.annotations));
    lemma_pair(s, t, k, n, ind2);
    lemma_distinct_prefix(m, i);
    lemma_skip_ws(s, e);
    let f = skip_ws(s, e);
    lemma_obj_step(s, nl, t, m.take(i), key_of(k), n, f);
    assert(m.take(i).push((k, n)) =~= m.take(i + 1));
    if i + 1 < m.len() {
        lemma_obj_from(s, p, m, ind, i + 1);
    } else {
        assert(m.take(i + 1) =~= m);
        lemma_obj_close(s, f, f, m);
    }
}

/// The elements of the array printed at `p`, from element `i` on.
#[verifier::spinoff_prover]
#[verifier::rlimit(50)]
proof fn lemma_arr_from(s: Seq<char>, p: int, items: Seq<SNode>, ind: Seq<char>, i: int)
    requires
        0 <= p,
        0 <= i < items.len(),
        mat(s, p, printed_value(SValue::Array(items), ind)),
        printable_value(SValue::Array(items)),
        ind_ok(ind),
    ensures
        value_start(s, arr_elem(p, items, ind, i)),
        arr_at(s, arr_elem(p, items, ind, i), items.take(i)) == Ok::<(SValue, int), (Seq<char>, int)>(
            (SValue::Array(items), p + printed_value(SValue::Array(items), ind).len()),
        ),
    decreases items, items.len() - i,
{
    lemma_arr_layout(s, p, items, ind, i);
    let c = arr_elem(p, items, ind, i);
    let n = items[i];
    let e = c + printed_node(n, ind).len();
    lemma_printable_items(items, i);
    assert(decreases_to!(items => items[i]));
    assert(open_end(s, e, n.annotations));
    lemma_node(s, c, n, ind, true);
    let r = val_at(s, c)->Ok_0.1;
    let r2 = trail_anns(s, r, Seq::empty())->Ok_0.1;
    assert(gap(s, c, c));
    lemma_gap_skip(s, c, c, c);
    lemma_arr_step(s, c, c, items.take(i), n, r, r2, e);
    assert(items.take(i).push(n) =~= items.take(i + 1));
    if i + 1 < items.len() {
        lemma_arr_from(s, p, items, ind, i + 1);
        lemma_arr_canon(s, e + 1, items.take(i + 1));
    } else {
        assert(items.take(i + 1) =~= items);
        lemma_arr_close(s, e, e, items);
    }
}

/// A node read back, as a pair's value (with its metadata) and as an array
/// element (with its trailing annotations).
#[verifier::spinoff_prover]
#[verifier::rlimit(50)]
proof fn lemma_node(s: Seq<char>, p: int, n: SNode, ind: Seq<char>, elem: bool)
    requires
        0 <= p,
        mat(s, p, printed_node(n, ind)),
        printable_node(n),
        ind_ok(ind),
        node_follow(s, p + printed_node(n, ind).len()),
        open_end(s, p + printed_node(n, ind).len(), n.annotations),
        elem ==> forall|j: int| 0 <= j < n.annotations.len() ==> #[trigger] trail_ok(n.annotations[j]),
    ensures
        value_start(s, p),
        val_at(s, p) is Ok,
        val_at(s, p)->Ok_0.0 == (n.value, n.confidence),
        p < val_at(s, p)->Ok_0.1 <= s.len(),
        meta_at(s, val_at(s, p)->Ok_0.1, n.confidence, Seq::empty()) == Ok::<
            ((Option<Seq<char>>, Seq<SAnnotation>), int),
            (Seq<char>, int),
        >(((n.confidence, n.annotations), skip_ws(s, p + printed_node(n, ind).len()))),
        elem ==> {
            &&& trail_anns(s, val_at(s, p)->Ok_0.1, Seq::empty()) is Ok
            &&& trail_anns(s, val_at(s, p)->Ok_0.1, Seq::empty())->Ok_0.0 == n.annotations
            &&& val_at(s, p)->Ok_0.1 <= trail_anns(s, val_at(s, p)->Ok_0.1, Seq::empty())->Ok_0.1
            &&& skip_ws(s, trail_anns(s, val_at(s, p)->Ok_0.1, Seq::empty())->Ok_0.1) == skip_ws(
                s,
                p + printed_node(n, ind).len(),
            )
        },
    decreases n, 2int,
{
    lemma_node_layout(s, p, n, ind);
    let ve = p + printed_value(n.value, ind).len();
    let a0 = anns_start(p, n, ind);
    let a = n.annotations;
    lemma_printed_value_nonempty(n.value, ind);
    lemma_value(s, p, n.value, ind);
    lemma_node_val(s, p, n.value, n.confidence, ve, a0);
    let r = val_at(s, p)->Ok_0.1;
    lemma_meta_canon(s, r, n.confidence, Seq::empty());
    lemma_meta_canon(s, a0, n.confidence, Seq::empty());
    assert(a.take(0) =~= Seq::<SAnnotation>::empty());
    lemma_anns_meta(s, a0, a, n.confidence, 0);
    if elem {
        lemma_anns_trail(s, a0, a, r, 0);
    }
}

/// A pair `key: node` read back at its key.
#[verifier::spinoff_prover]
#[verifier::rlimit(50)]
proof fn lemma_pair(s: Seq<char>, t: int, k: Seq<char>, n: SNode, ind: Seq<char>)
    requires
        0 <= t,
        mat(s, t, kv_text(k, n, ind)),
        printable_node(n),
        ind_ok(ind),
        node_follow(s, t + kv_text(k, n, ind).len()),
        open_end(s, t + kv_text(k, n, ind).len(), n.annotations),
    ensures
        t < s.len(),
        token_start(s, t),
        follow_token(s, t),
        s[t] != '[' && s[t] != '@' && s[t] != '}' && s[t] != ']',
        key_text(key_of(k)) == k,
        s[t] == '(' ==> paren_key(k),
        kv_at(s, t) == Ok::<(Option<(SKey, SNode)>, int), (Seq<char>, int)>(
            (Some((key_of(k), n)), skip_ws(s, t + kv_text(k, n, ind).len())),
        ),
    decreases n, 3int,
{
    lemma_pair_layout(s, t, k, n, ind);
    let q2 = t + printed_key(k).len();
    let p = q2 + 2;
    lemma_node(s, p, n, ind, false);
    assert(gap(s, q2 + 1, p));
    lemma_gap_skip(s, q2 + 1, p, q2 + 1);
    lemma_kv_step(s, t, k, q2, n, val_at(s, p)->Ok_0.1, skip_ws(s, t + kv_text(k, n, ind).len()));
}

proof fn lemma_pair_layout(s: Seq<char>, t: int, k: Seq<char>, n: SNode, ind: Seq<char>)
    requires
        0 <= t,
        mat(s, t, kv_text(k, n, ind)),
    ensures
        ({
            let q2 = t + printed_key(k).len();
            &&& t < s.len()
            &&& token_start(s, t)
            &&& follow_token(s, t)
            &&& s[t] != '[' && s[t] != '@' && s[t] != '}' && s[t] != ']'
            &&& key_text(key_of(k)) == k
            &&& (s[t] == '(' ==> paren_key(k))
            &&& skip_ws(s, t) == t
            &&& key_at(s, if s[t] == '~' { t + 1 } else { t }) == Ok::<(Seq<char>, int), (Seq<char>, int)>(
                (key_body(k), q2),
            )
            &&& key_of(k) == (if s[t] == '~' {
                SKey::Semantic(key_body(k))
            } else {
                SKey::Exact(key_body(k))
            })
            &&& q2 + 2 <= s.len()
            &&& skip_ws(s, q2) == q2
            &&& s[q2] == ':'
            &&& s[q2 + 1] == ' '
            &&& mat(s, q2 + 2, printed_node(n, ind))
            &&& kv_text(k, n, ind).len() == printed_key(k).len() + 2 + printed_node(n, ind).len()
        }),
{
    let pk = printed_key(k);
    let pn = printed_node(n, ind);
    lemma_mat_split(s, t, pk + seq![':', ' '], pn);
    assert(pk + seq![':', ' '] =~= (pk + seq![':']) + seq![' ']);
    lemma_mat_split(s, t, pk + seq![':'], seq![' ']);
    lemma_key(s, t, k);
    assert(gap(s, t, t));
    lemma_gap_skip(s, t, t, t);
    let q2 = t + pk.len();
    assert(token_start(s, q2));
    assert(gap(s, q2, q2));
    lemma_gap_skip(s, q2, q2, q2);
    lemma_mat_char(s, t + pk.len() + 1, seq![' '], 0);
}

proof fn lemma_printable_pairs(m: Seq<(Seq<char>, SNode)>, i: int)
    requires
        printable_value(SValue::Object(m)),
        0 <= i < m.len(),
    ensures
        printable_node(m[i].1),
        distinct_keys(m),
{
    lemma_printable_pairs_upto(m, m.len() as int, i);
}

proof fn lemma_printable_pairs_upto(m: Seq<(Seq<char>, SNode)>, k: int, i: int)
    requires
        printable_pairs(m, k),
        0 <= i < k <= m.len(),
    ensures
        printable_node(m[i].1),
    decreases k,
{
    if i < k - 1 {
        lemma_printable_pairs_upto(m, k - 1, i);
    }
}

proof fn lemma_printable_items(items: Seq<SNode>, i: int)
    requires
        printable_value(SValue::Array(items)),
        0 <= i < items.len(),
    ensures
        printable_node(items[i]),
        forall|j: int| 0 <= j < items[i].annotations.len() ==> #[trigger] trail_ok(items[i].annotations[j]),
{
    lemma_printable_items_at(items, i);
}

proof fn lemma_printable_items_at(items: Seq<SNode>, i: int)
    requires
        printable_items(items),
        0 <= i < items.len(),
    ensures
        printable_node(items[i]),
        forall|j: int| 0 <= j < items[i].annotations.len() ==> #[trigger] trail_ok(items[i].annotations[j]),
    decreases items.len(),
{
    if i < items.len() - 1 {
        lemma_printable_items_at(items.drop_last(), i);
        assert(items.drop_last()[i] == items[i]);
    }
}


// ---------------------------------------------------------------------------
// Documents
// ---------------------------------------------------------------------------

/// A document prints faithfully: its root is an object with no confidence
/// (the reader has nowhere to put one), its pairs print faithfully, and so do
/// the annotations of its root.
pub open spec fn printable_doc(d: SDocument) -> bool {
    &&& d.root.value is Object
    &&& d.root.confidence is None
    &&& printable_value(d.root.value)
    &&& forall|j: int| 0 <= j < d.root.annotations.len() ==> #[trigger] root_ann_ok(d.root.annotations[j])
}

/// An annotation of the root prints faithfully and is not `@cson`, which
/// the reader takes for the version line.
pub open spec fn root_ann_ok(a: SAnnotation) -> bool {
    printable_ann(a) && a.name != "cson"@
}

/// The `@cson` annotation that declares version `v`.
pub open spec fn cson_annotation(v: Seq<char>) -> SAnnotation {
    SAnnotation { name: "cson"@, args: None, properties: seq![("version"@, v)] }
}

/// The text before the pairs of a document.
pub open spec fn doc_header(v: Seq<char>) -> Seq<char> {
    if v != seq!['1', '.', '0'] {
        printed_annotation(cson_annotation(v)) + seq!['\n']
    } else {
        Seq::empty()
    }
}

proof fn lemma_doc_header(d: SDocument)
    requires
        d.root.value is Object,
    ensures
        printed_doc(d) == doc_header(d.version) + doc_pairs(
            d.root.value->Object_0,
            d.root.value->Object_0.len() as int,
        ) + doc_tail(d),
        printable_ann(cson_annotation(d.version)),
{
    reveal_strlit("cson");
    reveal_strlit("version");
    let v = d.version;
    let k = "version"@;
    assert(k =~= seq!['v', 'e', 'r', 's', 'i', 'o', 'n']);
    assert(trim_start(k) == k);
    assert(trim_end(k) == k);
    assert(bare_prop_key(k));
    assert(printed_prop_key(k) == k);
    let a = cson_annotation(v);
    assert(props_text(a.properties) == prop_text(k, v));
    if v != seq!['1', '.', '0'] {
        assert(printed_annotation(a) + seq!['\n'] =~= seq![
            '@',
            'c',
            's',
            'o',
            'n',
            ' ',
            '{',
            ' ',
            'v',
            'e',
            'r',
            's',
            'i',
            'o',
            'n',
            ':',
            ' ',
        ] + quoted(v) + seq![' ', '}', '\n']);
    }
    assert forall|i: int| 0 <= i < a.name.len() implies #[trigger] name_char(a.name[i]) by {
        assert(a.name =~= seq!['c', 's', 'o', 'n']);
    }
    assert(printable_prop(a.properties[0].0, a.properties[0].1));
    assert(distinct_keys(a.properties));
}

proof fn lemma_doc_pairs_mat(s: Seq<char>, b: int, m: Seq<(Seq<char>, SNode)>, i: int)
    requires
        mat(s, b, doc_pairs(m, m.len() as int)),
        0 <= i <= m.len(),
    ensures
        mat(s, b, doc_pairs(m, i)),
        i < m.len() ==> mat(s, b + doc_pairs(m, i).len(), kv_text(m[i].0, m[i].1, Seq::empty()) + seq!['\n']),
    decreases m.len() - i,
{
    if i < m.len() {
        lemma_doc_pairs_mat(s, b, m, i + 1);
        let pp = printed_pair(m[i].0, m[i].1, Seq::empty(), seq!['\n']);
        assert(doc_pairs(m, i + 1) == doc_pairs(m, i) + pp);
        assert(pp =~= kv_text(m[i].0, m[i].1, Seq::empty()) + seq!['\n']);
        lemma_mat_split(s, b, doc_pairs(m, i), pp);
    }
}

/// The document reader from `q` in state `st`, kept folded where only
/// its steps matter.
#[verifier::opaque]
pub open spec fn doc_rest(s: Seq<char>, q: int, st: DocState) -> Result<(SDocument, int), (Seq<char>, int)> {
    doc_at(s, q, st)
}

proof fn lemma_doc_layout(s: Seq<char>, h: int, m: Seq<(Seq<char>, SNode)>, i: int)
    requires
        0 <= h,
        mat(s, h, doc_pairs(m, m.len() as int)),
        0 <= i < m.len(),
    ensures
        ({
            let l = h + doc_pairs(m, i).len();
            let e = l + kv_text(m[i].0, m[i].1, Seq::empty()).len();
            &&& mat(s, l, kv_text(m[i].0, m[i].1, Seq::empty()))
            &&& e < s.len()
            &&& s[e] == '\n'
            &&& e + 1 == h + doc_pairs(m, i + 1).len()
        }),
{
    lemma_doc_pairs_mat(s, h, m, i);
    let l = h + doc_pairs(m, i).len();
    let k = m[i].0;
    let n = m[i].1;
    let kv = kv_text(k, n, Seq::empty());
    lemma_mat_split(s, l, kv, seq!['\n']);
    let e = l + kv.len();
    lemma_mat_char(s, e, seq!['\n'], 0);
    assert(doc_pairs(m, i + 1) == doc_pairs(m, i) + printed_pair(k, n, Seq::empty(), seq!['\n']));
    assert(printed_pair(k, n, Seq::empty(), seq!['\n']) =~= kv + seq!['\n']);
}

/// The document reader after the header, from pair `i` on.
#[verifier::spinoff_prover]
#[verifier::rlimit(50)]
proof fn lemma_doc_from(s: Seq<char>, h: int, d: SDocument, i: int)
    requires
        0 <= h,
        printable_doc(d),
        mat(
            s,
            h,
            doc_pairs(d.root.value->Object_0, d.root.value->Object_0.len() as int) + doc_tail(d),
        ),
        h + doc_pairs(d.root.value->Object_0, d.root.value->Object_0.len() as int).len()
            + doc_tail(d).len() == s.len(),
        0 <= i <= d.root.value->Object_0.len(),
    ensures
        doc_rest(
            s,
            h + doc_pairs(d.root.value->Object_0, i).len(),
            DocState {
                root: d.root.value->Object_0.take(i),
                section: None,
                pending: Seq::empty(),
                version: d.version,
            },
        ) == Ok::<(SDocument, int), (Seq<char>, int)>((d, s.len() as int)),
        i < d.root.value->Object_0.len() ==> {
            let l = h + doc_pairs(d.root.value->Object_0, i).len();
            &&& l < s.len()
            &&& follow_token(s, l)
            &&& token_start(s, l)
            &&& (s[l] == '(' ==> paren_key(d.root.value->Object_0[i].0))
        },
        i == d.root.value->Object_0.len() ==> {
            let l = h + doc_pairs(d.root.value->Object_0, i).len();
            l < s.len() ==> token_start(s, l) && (if i > 0 {
                s[l] == '['
            } else {
                s[l] == '@'
            })
        },
    decreases d.root.value->Object_0.len() - i,
{
    let m = d.root.value->Object_0;
    let l = h + doc_pairs(m, i).len();
    let st = DocState { root: m.take(i), section: None, pending: Seq::empty(), version: d.version };
    let pairs = doc_pairs(m, m.len() as int);
    lemma_mat_split(s, h, pairs, doc_tail(d));
    if i == m.len() {
        assert(m.take(i) =~= m);
        lemma_doc_tail(s, l, d);
    } else {
        let k = m[i].0;
        let n = m[i].1;
        lemma_doc_layout(s, h, m, i);
        let e = l + kv_text(k, n, Seq::empty()).len();
        lemma_doc_from(s, h, d, i + 1);
        let l2 = e + 1;
        assert(has_pairs(d.root.value));
        assert(token_start(s, l2));
        assert(gap(s, e, l2));
        lemma_gap_skip(s, e, l2, e);
        assert(node_follow(s, e));
        if i + 1 < m.len() && ends_open(m[i].1) {
            assert(ends_open(m[i + 1 - 1].1));
            assert(!paren_key(m[i + 1].0));
        }
        assert(open_end(s, e, n.annotations));
        lemma_printable_pairs(m, i);
        assert(ind_ok(Seq::<char>::empty()));
        lemma_pair(s, l, k, n, Seq::empty());
        assert(gap(s, l, l));
        lemma_gap_skip(s, l, l, l);
        lemma_distinct_prefix(m, i);
        assert(m.take(i).push((k, n)) =~= m.take(i + 1));
        lemma_doc_step(s, l, st, key_of(k), n, l2);
    }
}

proof fn lemma_doc_step(s: Seq<char>, q: int, st: DocState, key: SKey, n: SNode, q2: int)
    requires
        0 <= q < s.len(),
        skip_ws(s, q) == q,
        s[q] != '@' && s[q] != '[',
        st.section is None,
        st.pending.len() == 0,
        kv_at(s, q) == Ok::<(Option<(SKey, SNode)>, int), (Seq<char>, int)>((Some((key, n)), q2)),
        !has_key(st.root, key_text(key)),
    ensures
        doc_rest(s, q, st) == doc_rest(
            s,
            q2,
            DocState { root: st.root.push((key_text(key), n)), pending: Seq::empty(), ..st },
        ),
{
    reveal(doc_rest);
    assert(n.annotations + st.pending =~= n.annotations);
    assert(SNode { annotations: n.annotations + st.pending, ..n } == n);
}

/// The `@cson` line, when there is one, sets the version.
#[verifier::spinoff_prover]
#[verifier::rlimit(50)]
proof fn lemma_doc_head(s: Seq<char>, v: Seq<char>)
    requires
        mat(s, 0, doc_header(v)),
        printable_ann(cson_annotation(v)),
        doc_header(v).len() < s.len() ==> (follow_token(s, doc_header(v).len() as int) || at(
            s,
            doc_header(v).len() as int,
            '@',
        )) && token_start(s, doc_header(v).len() as int),
    ensures
        doc_rest(s, 0, doc_start()) == doc_rest(
            s,
            doc_header(v).len() as int,
            DocState { root: Seq::empty(), section: None, pending: Seq::empty(), version: v },
        ),
{
    let hd = doc_header(v);
    let h = hd.len() as int;
    let st0 = DocState { root: Seq::empty(), section: None, pending: Seq::empty(), version: v };
    reveal_strlit("1.0");
    if v != seq!['1', '.', '0'] {
        reveal_strlit("cson");
        reveal_strlit("version");
        let a = cson_annotation(v);
        let pa = printed_annotation(a);
        lemma_mat_split(s, 0, pa, seq!['\n']);
        lemma_mat_char(s, pa.len() as int, seq!['\n'], 0);
        let e = pa.len() as int;
        assert(h == e + 1);
        assert(gap(s, e, h));
        lemma_gap_skip(s, e, h, e);
        assert(ann_follow(s, e));
        lemma_ann(s, 0, a);
        lemma_mat_char(s, 0, pa, 0);
        assert(token_start(s, 0));
        assert(gap(s, 0, 0));
        lemma_gap_skip(s, 0, 0, 0);
        lemma_key_index(a.properties, "version"@);
        assert(cson_version(a, "1.0"@) == v);
        lemma_doc_canon(s, e, st0);
        lemma_doc_at_ann(s, a, e, st0);
        reveal(doc_rest);
    } else {
        assert("1.0"@ =~= seq!['1', '.', '0']);
        assert(doc_start() == st0);
    }
}

proof fn lemma_doc_at_ann(s: Seq<char>, a: SAnnotation, e: int, st: DocState)
    requires
        0 < e <= s.len(),
        skip_ws(s, 0) == 0,
        s[0] == '@',
        ann_at(s, 0) == Ok::<(SAnnotation, int), (Seq<char>, int)>((a, e)),
        a.name == "cson"@,
        st == (DocState { version: cson_version(a, "1.0"@), ..doc_start() }),
    ensures
        doc_at(s, 0, doc_start()) == doc_at(s, e, st),
{
}

/// The whole printed document, read from its start.
#[verifier::spinoff_prover]
#[verifier::rlimit(50)]
proof fn lemma_doc_whole(s: Seq<char>, d: SDocument)
    requires
        printable_doc(d),
        s == doc_header(d.version) + (doc_pairs(
            d.root.value->Object_0,
            d.root.value->Object_0.len() as int,
        ) + doc_tail(d)),
        printable_ann(cson_annotation(d.version)),
    ensures
        doc_rest(s, 0, doc_start()) == Ok::<(SDocument, int), (Seq<char>, int)>(
            (d, s.len() as int),
        ),
{
    let m = d.root.value->Object_0;
    let pairs = doc_pairs(m, m.len() as int);
    let hd = doc_header(d.version);
    assert(mat(s, 0, s)) by {
        assert(s.subrange(0, s.len() as int) =~= s);
    }
    lemma_mat_split(s, 0, hd, pairs + doc_tail(d));
    let h = hd.len() as int;
    assert(m.take(0) =~= Seq::<(Seq<char>, SNode)>::empty());
    assert(doc_pairs(m, 0).len() == 0);
    lemma_doc_from(s, h, d, 0);
    lemma_doc_head(s, d.version);
}

/// Reading what the printer wrote gives the document back: for a document
/// that prints faithfully, `parse` of `print_document` returns that document
/// and reads the whole text. Everything the document holds survives: the
/// version, every key (bare, quoted or semantic), value, confidence and
/// annotation, the annotations of the root, annotation arguments as written,
/// and annotation properties with their keys.
#[verifier::spinoff_prover]
#[verifier::rlimit(30)]
pub proof fn law_print_then_parse(d: SDocument)
    requires
        printable_doc(d),
    ensures
        parse_doc(printed_doc(d), 0) == Ok::<(SDocument, int), (Seq<char>, int)>(
            (d, printed_doc(d).len() as int),
        ),
{
    let s = printed_doc(d);
    let m = d.root.value->Object_0;
    lemma_doc_header(d);
    assert(s == doc_header(d.version) + (doc_pairs(m, m.len() as int) + doc_tail(d)));
    lemma_doc_whole(s, d);
    reveal(doc_rest);
}

proof fn lemma_doc_canon(s: Seq<char>, q: int, st: DocState)
    requires
        0 <= q < s.len(),
    ensures
        doc_at(s, q, st) == doc_at(s, skip_ws(s, q), st),
{
    lemma_skip_ws_fix(s, q);
    lemma_skip_ws(s, q);
}


proof fn lemma_root_anns_step(a: Seq<SAnnotation>, i: int)
    requires
        0 <= i < a.len(),
    ensures
        root_anns_text(a.take(i + 1)) == root_anns_text(a.take(i)) + printed_annotation(a[i])
            + seq!['\n'],
{
    assert(a.take(i + 1).drop_last() =~= a.take(i));
    assert(a.take(i + 1).last() == a[i]);
}

proof fn lemma_root_anns_mat(s: Seq<char>, b: int, a: Seq<SAnnotation>, i: int)
    requires
        mat(s, b, root_anns_text(a)),
        0 <= i <= a.len(),
    ensures
        mat(s, b, root_anns_text(a.take(i))),
    decreases a.len() - i,
{
    if i == a.len() {
        assert(a.take(i) =~= a);
    } else {
        lemma_root_anns_mat(s, b, a, i + 1);
        lemma_root_anns_step(a, i);
        lemma_mat_split(s, b, root_anns_text(a.take(i)) + printed_annotation(a[i]), seq!['\n']);
        lemma_mat_split(s, b, root_anns_text(a.take(i)), printed_annotation(a[i]));
    }
}

proof fn lemma_doc_rest_canon(s: Seq<char>, q: int, st: DocState)
    requires
        0 <= q < s.len(),
    ensures
        doc_rest(s, q, st) == doc_rest(s, skip_ws(s, q), st),
{
    reveal(doc_rest);
    lemma_doc_canon(s, q, st);
}

proof fn lemma_doc_ann_step(s: Seq<char>, q: int, st: DocState, a: SAnnotation, r: int)
    requires
        0 <= q < s.len(),
        skip_ws(s, q) == q,
        s[q] == '@',
        ann_at(s, q) == Ok::<(SAnnotation, int), (Seq<char>, int)>((a, r)),
        a.name != "cson"@,
    ensures
        doc_rest(s, q, st) == doc_rest(s, r, DocState { pending: st.pending.push(a), ..st }),
{
    reveal(doc_rest);
}

proof fn lemma_doc_section_step(s: Seq<char>, q: int, st: DocState)
    requires
        0 <= q,
        q + 1 < s.len(),
        skip_ws(s, q) == q,
        s[q] == '[',
        s[q + 1] == ']',
    ensures
        doc_rest(s, q, st) == doc_rest(
            s,
            q + 2,
            DocState { section: Some(trim(Seq::<char>::empty())), ..st },
        ),
{
    reveal(doc_rest);
    lemma_scan_to(s, q + 1, Stop::Char(']'), q + 1);
    assert(s.subrange(q + 1, q + 1) =~= Seq::<char>::empty());
}

proof fn lemma_doc_finish_at(s: Seq<char>, st: DocState)
    ensures
        doc_rest(s, s.len() as int, st) == Ok::<(SDocument, int), (Seq<char>, int)>(
            (doc_finish(st), s.len() as int),
        ),
{
    reveal(doc_rest);
}

/// The annotations of the root, one per line from `b`, from annotation `i` on.
#[verifier::spinoff_prover]
#[verifier::rlimit(50)]
proof fn lemma_root_anns_from(s: Seq<char>, b: int, a: Seq<SAnnotation>, i: int, st: DocState)
    requires
        0 <= b,
        0 <= i <= a.len(),
        mat(s, b, root_anns_text(a)),
        b + root_anns_text(a).len() == s.len(),
        forall|j: int| 0 <= j < a.len() ==> #[trigger] root_ann_ok(a[j]),
        st.pending == a.take(i),
    ensures
        doc_rest(s, b + root_anns_text(a.take(i)).len(), st) == Ok::<
            (SDocument, int),
            (Seq<char>, int),
        >((doc_finish(DocState { pending: a, ..st }), s.len() as int)),
    decreases a.len() - i,
{
    if i == a.len() {
        assert(a.take(i) =~= a);
        assert(DocState { pending: a, ..st } == st);
        lemma_doc_finish_at(s, st);
    } else {
        let bi = b + root_anns_text(a.take(i)).len();
        let pa = printed_annotation(a[i]);
        let e = bi + pa.len();
        lemma_root_anns_step(a, i);
        lemma_root_anns_mat(s, b, a, i + 1);
        lemma_mat_split(s, b, root_anns_text(a.take(i)) + pa, seq!['\n']);
        lemma_mat_split(s, b, root_anns_text(a.take(i)), pa);
        lemma_mat_char(s, e, seq!['\n'], 0);
        lemma_mat_char(s, bi, pa, 0);
        assert(root_ann_ok(a[i]));
        assert(token_start(s, bi));
        assert(gap(s, bi, bi));
        lemma_gap_skip(s, bi, bi, bi);
        let b2 = e + 1;
        assert(b2 == b + root_anns_text(a.take(i + 1)).len());
        if i + 1 < a.len() {
            lemma_root_anns_step(a, i + 1);
            lemma_root_anns_mat(s, b, a, i + 2);
            lemma_mat_split(
                s,
                b,
                root_anns_text(a.take(i + 1)) + printed_annotation(a[i + 1]),
                seq!['\n'],
            );
            lemma_mat_split(s, b, root_anns_text(a.take(i + 1)), printed_annotation(a[i + 1]));
            lemma_mat_char(s, b2, printed_annotation(a[i + 1]), 0);
        } else {
            assert(a.take(i + 1) =~= a);
        }
        assert(token_start(s, b2));
        assert(gap(s, e, b2));
        lemma_gap_skip(s, e, b2, e);
        assert(ann_follow(s, e));
        lemma_ann(s, bi, a[i]);
        let r = ann_ret(s, e, a[i]);
        let st2 = DocState { pending: st.pending.push(a[i]), ..st };
        lemma_doc_ann_step(s, bi, st, a[i], r);
        lemma_doc_rest_canon(s, e, st2);
        if b2 < s.len() {
            lemma_doc_rest_canon(s, b2, st2);
        }
        assert(st.pending.push(a[i]) =~= a.take(i + 1));
        lemma_root_anns_from(s, b, a, i + 1, st2);
        assert(DocState { pending: a, ..st2 } == DocState { pending: a, ..st });
    }
}

/// What follows the pairs of a document: the `[]` line, when there is one,
/// and the annotations of the root.
#[verifier::spinoff_prover]
#[verifier::rlimit(50)]
proof fn lemma_doc_tail(s: Seq<char>, l: int, d: SDocument)
    requires
        0 <= l,
        printable_doc(d),
        mat(s, l, doc_tail(d)),
        l + doc_tail(d).len() == s.len(),
    ensures
        doc_rest(
            s,
            l,
            DocState {
                root: d.root.value->Object_0,
                section: None,
                pending: Seq::empty(),
                version: d.version,
            },
        ) == Ok::<(SDocument, int), (Seq<char>, int)>((d, s.len() as int)),
        l < s.len() ==> token_start(s, l) && (if has_pairs(d.root.value) {
            s[l] == '['
        } else {
            s[l] == '@'
        }),
{
    let a = d.root.annotations;
    let m = d.root.value->Object_0;
    let st = DocState { root: m, section: None, pending: Seq::empty(), version: d.version };
    let sec = if a.len() > 0 && has_pairs(d.root.value) {
        seq!['[', ']', '\n']
    } else {
        Seq::<char>::empty()
    };
    lemma_mat_split(s, l, sec, root_anns_text(a));
    assert(a.take(0) =~= Seq::<SAnnotation>::empty());
    assert(root_anns_text(a.take(0)).len() == 0);
    assert(DocState { pending: a, ..st }.root == m);
    assert(doc_finish(DocState { pending: a, ..st }) == d);
    if a.len() == 0 {
        assert(a =~= Seq::<SAnnotation>::empty());
        lemma_doc_finish_at(s, st);
    } else {
        lemma_root_anns_step(a, 0);
        lemma_root_anns_mat(s, l + sec.len(), a, 1);
        lemma_mat_split(s, l + sec.len(), root_anns_text(a.take(0)) + printed_annotation(a[0]), seq!['\n']);
        lemma_mat_split(s, l + sec.len(), root_anns_text(a.take(0)), printed_annotation(a[0]));
        lemma_mat_char(s, l + sec.len(), printed_annotation(a[0]), 0);
        if has_pairs(d.root.value) {
            lemma_mat_char(s, l, sec, 0);
            lemma_mat_char(s, l, sec, 1);
            lemma_mat_char(s, l, sec, 2);
            assert(token_start(s, l));
            assert(gap(s, l, l));
            lemma_gap_skip(s, l, l, l);
            let st1 = DocState { section: Some(trim(Seq::<char>::empty())), ..st };
            lemma_doc_section_step(s, l, st);
            assert(token_start(s, l + 3));
            assert(gap(s, l + 2, l + 3));
            lemma_gap_skip(s, l + 2, l + 3, l + 2);
            lemma_doc_rest_canon(s, l + 2, st1);
            lemma_root_anns_from(s, l + 3, a, 0, st1);
            assert(doc_finish(DocState { pending: a, ..st1 }) == d);
        } else {
            lemma_root_anns_from(s, l, a, 0, st);
        }
    }
}


// ---------------------------------------------------------------------------
// Strings and keys read back
// ---------------------------------------------------------------------------

/// Reading a quoted string that the printer wrote gives the string back and
/// takes its whole text.
pub proof fn law_quote_then_read(t: Seq<char>)
    ensures
        qstr(quoted(t), 0) == Ok::<(Seq<char>, int), (Seq<char>, int)>((t, quoted(t).len() as int)),
{
    let s = quoted(t);
    assert(mat(s, 0, s)) by {
        assert(s.subrange(0, s.len() as int) =~= s);
    }
    lemma_quoted(s, 0, t);
}

/// A key that the printer judges safe to write bare reads back as itself
/// from `k: 1` alone, with no newline after it.
#[verifier::spinoff_prover]
#[verifier::rlimit(60)]
pub proof fn law_safe_key_alone_reads_back(k: Seq<char>)
    requires
        safe_bare_key(k),
    ensures
        parse_doc(k + seq![':', ' ', '1'], 0) == Ok::<(SDocument, int), (Seq<char>, int)>(
            (one_pair_doc(k), k.len() + 3int),
        ),
{
    reveal_strlit("1.0");
    let s = k + seq![':', ' ', '1'];
    let one = seq!['1'];
    let n = SNode { value: SValue::Number(one), confidence: None, annotations: Seq::empty() };
    assert(is_float_literal(one)) by {
        assert(digits_end(one, 1) == 1);
        assert(digits_end(one, 0) == 1);
        assert(one.subrange(0, 1) =~= one);
    }
    assert(printable_node(n));
    assert(printed_key(k) == k);
    assert(printed_node(n, Seq::empty()) =~= one);
    assert(kv_text(k, n, Seq::empty()) =~= s);
    assert(mat(s, 0, s)) by {
        assert(s.subrange(0, s.len() as int) =~= s);
    }
    assert(ind_ok(Seq::<char>::empty()));
    assert(skip_ws(s, s.len() as int) == s.len());
    assert(node_follow(s, s.len() as int));
    lemma_pair(s, 0, k, n, Seq::empty());
    assert(key_of(k) == SKey::Exact(k));
    assert(gap(s, 0, 0));
    lemma_gap_skip(s, 0, 0, 0);
    let st = DocState { root: seq![(k, n)], pending: Seq::empty(), ..doc_start() };
    assert(Seq::<(Seq<char>, SNode)>::empty().push((k, n)) =~= seq![(k, n)]);
    assert(!has_key(Seq::<(Seq<char>, SNode)>::empty(), k));
    lemma_doc_step(s, 0, doc_start(), SKey::Exact(k), n, s.len() as int);
    lemma_doc_end(s, st);
    assert("1.0"@ =~= seq!['1', '.', '0']);
    assert(doc_finish(st) == one_pair_doc(k));
    reveal(doc_rest);
}

proof fn lemma_doc_duplicate(s: Seq<char>, q: int, st: DocState, key: SKey, n: SNode, q2: int)
    requires
        0 <= q < s.len(),
        skip_ws(s, q) == q,
        s[q] != '@' && s[q] != '[',
        st.section is None,
        kv_at(s, q) == Ok::<(Option<(SKey, SNode)>, int), (Seq<char>, int)>((Some((key, n)), q2)),
        has_key(st.root, key_text(key)),
    ensures
        doc_rest(s, q, st) == Err::<(SDocument, int), (Seq<char>, int)>(
            ("Duplicate key: "@ + key_text(key), q2),
        ),
{
    reveal(doc_rest);
}

/// The node of the number `1`.
pub open spec fn one_node() -> SNode {
    SNode { value: SValue::Number(seq!['1']), confidence: None, annotations: Seq::empty() }
}

/// The pair `k: 1` at `t`, followed as a node may be.
#[verifier::spinoff_prover]
#[verifier::rlimit(40)]
proof fn lemma_one_pair_at(s: Seq<char>, t: int, k: Seq<char>)
    requires
        safe_bare_key(k),
        0 <= t,
        mat(s, t, k + seq![':', ' ', '1']),
        node_follow(s, t + k.len() + 3),
    ensures
        t < s.len(),
        skip_ws(s, t) == t,
        token_start(s, t),
        follow_token(s, t),
        s[t] != '@' && s[t] != '[',
        kv_at(s, t) == Ok::<(Option<(SKey, SNode)>, int), (Seq<char>, int)>(
            (Some((SKey::Exact(k), one_node())), skip_ws(s, t + k.len() + 3)),
        ),
{
    let one = seq!['1'];
    let n = one_node();
    assert(is_float_literal(one)) by {
        assert(digits_end(one, 1) == 1);
        assert(digits_end(one, 0) == 1);
        assert(one.subrange(0, 1) =~= one);
    }
    assert(printable_node(n));
    assert(printed_key(k) == k);
    assert(printed_node(n, Seq::empty()) =~= one);
    assert(kv_text(k, n, Seq::empty()) =~= k + seq![':', ' ', '1']);
    assert(ind_ok(Seq::<char>::empty()));
    lemma_pair(s, t, k, n, Seq::empty());
    assert(key_of(k) == SKey::Exact(k));
    assert(gap(s, t, t));
    lemma_gap_skip(s, t, t, t);
}

#[verifier::spinoff_prover]
#[verifier::rlimit(100)]
proof fn lemma_two_pairs(k: Seq<char>, s: Seq<char>)
    requires
        safe_bare_key(k),
        s.len() == 2 * k.len() + 7,
        mat(s, 0, k + seq![':', ' ', '1']),
        s[k.len() + 3int] == '\n',
        mat(s, k.len() + 4int, k + seq![':', ' ', '1']),
    ensures
        skip_ws(s, 0) == 0,
        skip_ws(s, k.len() + 4int) == k.len() + 4,
        s[0] != '@' && s[0] != '[',
        s[k.len() + 4int] != '@' && s[k.len() + 4int] != '[',
        k.len() + 4 < s.len(),
        s.len() == 2 * k.len() + 7,
        kv_at(s, 0) == Ok::<(Option<(SKey, SNode)>, int), (Seq<char>, int)>(
            (Some((SKey::Exact(k), one_node())), k.len() + 4int),
        ),
        kv_at(s, k.len() + 4int) == Ok::<(Option<(SKey, SNode)>, int), (Seq<char>, int)>(
            (Some((SKey::Exact(k), one_node())), s.len() as int),
        ),
{
    let l = k.len() as int;
    assert(skip_ws(s, s.len() as int) == s.len());
    assert(node_follow(s, s.len() as int));
    lemma_one_pair_at(s, l + 4, k);
    assert(gap(s, l + 3, l + 4)) by {
        assert(blank(s[l + 3]));
    }
    lemma_gap_skip(s, l + 3, l + 4, l + 3);
    assert(node_follow(s, l + 3));
    lemma_one_pair_at(s, 0, k);
}

proof fn lemma_dup_doc(k: Seq<char>, s: Seq<char>)
    requires
        k.len() + 4 < s.len(),
        skip_ws(s, 0) == 0,
        skip_ws(s, k.len() + 4int) == k.len() + 4,
        s[0] != '@' && s[0] != '[',
        s[k.len() + 4int] != '@' && s[k.len() + 4int] != '[',
        kv_at(s, 0) == Ok::<(Option<(SKey, SNode)>, int), (Seq<char>, int)>(
            (Some((SKey::Exact(k), one_node())), k.len() + 4int),
        ),
        kv_at(s, k.len() + 4int) == Ok::<(Option<(SKey, SNode)>, int), (Seq<char>, int)>(
            (Some((SKey::Exact(k), one_node())), s.len() as int),
        ),
    ensures
        parse_doc(s, 0) == Err::<(SDocument, int), (Seq<char>, int)>(
            ("Duplicate key: "@ + k, s.len() as int),
        ),
{
    let n = one_node();
    let l = k.len() as int;
    let st = DocState { root: seq![(k, n)], pending: Seq::empty(), ..doc_start() };
    assert(Seq::<(Seq<char>, SNode)>::empty().push((k, n)) =~= seq![(k, n)]);
    assert(!has_key(Seq::<(Seq<char>, SNode)>::empty(), k));
    lemma_doc_step(s, 0, doc_start(), SKey::Exact(k), n, l + 4);
    assert(seq![(k, n)][0].0 == k);
    assert(has_key(st.root, k));
    lemma_doc_duplicate(s, l + 4, st, SKey::Exact(k), n, s.len() as int);
    reveal(doc_rest);
}

/// The text `k: 1`, a newline, and `k: 1` again.
#[verifier::opaque]
pub open spec fn twice_text(k: Seq<char>) -> Seq<char> {
    k + seq![':', ' ', '1', '\n'] + k + seq![':', ' ', '1']
}

proof fn lemma_twice_text(k: Seq<char>)
    ensures
        twice_text(k).len() == 2 * k.len() + 7,
        mat(twice_text(k), 0, k + seq![':', ' ', '1']),
        twice_text(k)[k.len() + 3int] == '\n',
        mat(twice_text(k), k.len() + 4int, k + seq![':', ' ', '1']),
{
    reveal(twice_text);
    let s = twice_text(k);
    let line = k + seq![':', ' ', '1'];
    let l = k.len() as int;
    assert(s.subrange(0, l + 3) =~= line);
    assert(s.subrange(l + 4, 2 * l + 7) =~= line);
}

/// A key held twice in an object is refused, not overwritten: `k: 1` on a
/// line and `k: 1` again after it (`twice_text(k)`) give the error
/// "Duplicate key: k", at the end of the second pair.
pub proof fn law_duplicate_key_refused(k: Seq<char>)
    requires
        safe_bare_key(k),
    ensures
        parse_doc(twice_text(k), 0) == Err::<(SDocument, int), (Seq<char>, int)>(
            ("Duplicate key: "@ + k, 2 * k.len() + 7int),
        ),
{
    lemma_twice_text(k);
    lemma_two_pairs(k, twice_text(k));
    lemma_dup_doc(k, twice_text(k));
}

proof fn lemma_doc_end(s: Seq<char>, st: DocState)
    ensures
        doc_rest(s, s.len() as int, st) == Ok::<(SDocument, int), (Seq<char>, int)>(
            (doc_finish(st), s.len() as int),
        ),
{
    reveal(doc_rest);
}

/// The document of one pair `k: 1`.
pub open spec fn one_pair_doc(k: Seq<char>) -> SDocument {
    SDocument {
        version: seq!['1', '.', '0'],
        root: SNode {
            value: SValue::Object(
                seq![
                    (
                        k,
                        SNode {
                            value: SValue::Number(seq!['1']),
                            confidence: None,
                            annotations: Seq::empty(),
                        },
                    ),
                ],
            ),
            confidence: None,
            annotations: Seq::empty(),
        },
    }
}

/// A key that the printer judges safe to write bare reads back as itself:
/// `k: 1` on a line of its own reads as the one pair with key `k`.
#[verifier::spinoff_prover]
#[verifier::rlimit(40)]
pub proof fn law_safe_key_reads_back(k: Seq<char>)
    requires
        safe_bare_key(k),
    ensures
        parse_doc(k + seq![':', ' ', '1', '\n'], 0) == Ok::<(SDocument, int), (Seq<char>, int)>(
            (one_pair_doc(k), k.len() + 4int),
        ),
{
    let d = one_pair_doc(k);
    let n = SNode { value: SValue::Number(seq!['1']), confidence: None, annotations: Seq::empty() };
    let m = seq![(k, n)];
    assert(d.root.value == SValue::Object(m));
    let one = seq!['1'];
    assert(is_float_literal(one)) by {
        assert(digits_end(one, 1) == 1);
        assert(digits_end(one, 0) == 1);
        assert(one.subrange(0, 1) =~= one);
    }
    assert(printable_node(n));
    assert(distinct_keys(m));
    assert(printable_pairs(m, 0));
    assert(printable_pairs(m, 1));
    assert(printable_value(d.root.value));
    assert(printable_doc(d));
    reveal_strlit("1.0");
    assert(doc_header(d.version) =~= Seq::<char>::empty());
    assert(printed_node(n, Seq::empty()) =~= one);
    assert(printed_key(k) == k);
    assert(doc_pairs(m, 0) =~= Seq::<char>::empty());
    assert(printed_pair(k, n, Seq::empty(), seq!['\n']) =~= k + seq![':', ' ', '1', '\n']);
    assert(doc_pairs(m, 1) =~= k + seq![':', ' ', '1', '\n']);
    assert(doc_tail(d) =~= Seq::<char>::empty());
    assert(printed_doc(d) =~= k + seq![':', ' ', '1', '\n']);
    law_print_then_parse(d);
}


// ---------------------------------------------------------------------------
// Sections
// ---------------------------------------------------------------------------

/// `[sec]` on a line of its own, then the pairs of `m`, one per line, as the
/// printer writes the pairs of a document.
pub open spec fn section_text(sec: Seq<char>, m: Seq<(Seq<char>, SNode)>) -> Seq<char> {
    seq!['['] + sec + seq![']', '\n'] + doc_pairs(m, m.len() as int)
}

/// The node of an object with the pairs `m`.
pub open spec fn object_node(m: Seq<(Seq<char>, SNode)>) -> SNode {
    SNode { value: SValue::Object(m), confidence: None, annotations: Seq::empty() }
}

/// The document whose root holds the one pair `sec: { … }` with the pairs of `m`.
pub open spec fn nested_doc(sec: Seq<char>, m: Seq<(Seq<char>, SNode)>) -> SDocument {
    SDocument { version: seq!['1', '.', '0'], root: object_node(seq![(sec, object_node(m))]) }
}

/// The root pairs once the first pairs `p` of a section `sec` are read.
pub open spec fn section_root(sec: Seq<char>, p: Seq<(Seq<char>, SNode)>) -> Seq<(Seq<char>, SNode)> {
    if p.len() == 0 {
        Seq::empty()
    } else {
        seq![(sec, object_node(p))]
    }
}

proof fn lemma_section_add(sec: Seq<char>, m: Seq<(Seq<char>, SNode)>, i: int)
    requires
        distinct_keys(m),
        0 <= i < m.len(),
    ensures
        section_add(section_root(sec, m.take(i)), sec, m[i].0, m[i].1) == Ok::<
            Seq<(Seq<char>, SNode)>,
            Seq<char>,
        >(section_root(sec, m.take(i + 1))),
{
    lemma_distinct_prefix(m, i);
    let root = section_root(sec, m.take(i));
    assert(m.take(i).push(m[i]) =~= m.take(i + 1));
    if i == 0 {
        assert(!has_key(root, sec));
        let root1 = root.push((sec, empty_object_node()));
        assert(root1[0].0 == sec);
        assert(key_index(root1, sec) == 0);
        assert(m.take(0) =~= Seq::<(Seq<char>, SNode)>::empty());
        assert(!has_key(Seq::<(Seq<char>, SNode)>::empty(), m[i].0));
        assert(root1.update(0, (sec, object_node(seq![m[i]]))) =~= section_root(sec, m.take(1)));
        assert(seq![m[i]] =~= m.take(1));
    } else {
        assert(root[0].0 == sec);
        assert(has_key(root, sec));
        assert(key_index(root, sec) == 0);
        assert(root.update(0, (sec, object_node(m.take(i).push(m[i])))) =~= section_root(
            sec,
            m.take(i + 1),
        ));
    }
}

proof fn lemma_section_step(
    s: Seq<char>,
    q: int,
    sec: Seq<char>,
    m: Seq<(Seq<char>, SNode)>,
    i: int,
    q2: int,
)
    requires
        distinct_keys(m),
        0 <= i < m.len(),
        0 <= q < s.len(),
        skip_ws(s, q) == q,
        s[q] != '@' && s[q] != '[',
        kv_at(s, q) == Ok::<(Option<(SKey, SNode)>, int), (Seq<char>, int)>(
            (Some((key_of(m[i].0), m[i].1)), q2),
        ),
        key_text(key_of(m[i].0)) == m[i].0,
    ensures
        doc_rest(
            s,
            q,
            DocState {
                root: section_root(sec, m.take(i)),
                section: Some(sec),
                pending: Seq::empty(),
                version: seq!['1', '.', '0'],
            },
        ) == doc_rest(
            s,
            q2,
            DocState {
                root: section_root(sec, m.take(i + 1)),
                section: Some(sec),
                pending: Seq::empty(),
                version: seq!['1', '.', '0'],
            },
        ),
{
    reveal(doc_rest);
    lemma_section_add(sec, m, i);
    let n = m[i].1;
    assert(n.annotations + Seq::<SAnnotation>::empty() =~= n.annotations);
    assert(SNode { annotations: n.annotations + Seq::<SAnnotation>::empty(), ..n } == n);
}

/// Reading the pairs of `d` (from pair `i` on) under the open section `sec`.
proof fn lemma_section_from(s: Seq<char>, h: int, d: SDocument, sec: Seq<char>, i: int)
    requires
        0 <= h,
        printable_doc(d),
        d.root.annotations.len() == 0,
        d.root.value->Object_0.len() > 0,
        mat(s, h, doc_pairs(d.root.value->Object_0, d.root.value->Object_0.len() as int)),
        h + doc_pairs(d.root.value->Object_0, d.root.value->Object_0.len() as int).len() == s.len(),
        0 <= i <= d.root.value->Object_0.len(),
    ensures
        doc_rest(
            s,
            h + doc_pairs(d.root.value->Object_0, i).len(),
            DocState {
                root: section_root(sec, d.root.value->Object_0.take(i)),
                section: Some(sec),
                pending: Seq::empty(),
                version: seq!['1', '.', '0'],
            },
        ) == Ok::<(SDocument, int), (Seq<char>, int)>(
            (nested_doc(sec, d.root.value->Object_0), s.len() as int),
        ),
    decreases d.root.value->Object_0.len() - i,
{
    let m = d.root.value->Object_0;
    let l = h + doc_pairs(m, i).len();
    assert(doc_tail(d) =~= Seq::<char>::empty()) by {
        reveal_with_fuel(root_anns_text, 1);
    }
    assert(doc_pairs(m, m.len() as int) + doc_tail(d) =~= doc_pairs(m, m.len() as int));
    if i == m.len() {
        assert(m.take(i) =~= m);
        reveal(doc_rest);
        assert(doc_finish(
            DocState {
                root: section_root(sec, m),
                section: Some(sec),
                pending: Seq::empty(),
                version: seq!['1', '.', '0'],
            },
        ) == nested_doc(sec, m));
    } else {
        let k = m[i].0;
        let n = m[i].1;
        lemma_doc_from(s, h, d, i);
        lemma_doc_layout(s, h, m, i);
        let e = l + kv_text(k, n, Seq::empty()).len();
        lemma_doc_from(s, h, d, i + 1);
        lemma_section_from(s, h, d, sec, i + 1);
        let l2 = e + 1;
        assert(has_pairs(d.root.value));
        assert(token_start(s, l2));
        assert(gap(s, e, l2));
        lemma_gap_skip(s, e, l2, e);
        assert(node_follow(s, e));
        if i + 1 < m.len() && ends_open(m[i].1) {
            assert(ends_open(m[i + 1 - 1].1));
            assert(!paren_key(m[i + 1].0));
        }
        assert(open_end(s, e, n.annotations));
        lemma_printable_pairs(m, i);
        assert(ind_ok(Seq::<char>::empty()));
        lemma_pair(s, l, k, n, Seq::empty());
        assert(gap(s, l, l));
        lemma_gap_skip(s, l, l, l);
        lemma_section_step(s, l, sec, m, i, l2);
    }
}

proof fn lemma_nested_printable(sec: Seq<char>, m: Seq<(Seq<char>, SNode)>)
    requires
        printable_value(SValue::Object(m)),
    ensures
        printable_doc(nested_doc(sec, m)),
        printable_doc(SDocument { version: seq!['1', '.', '0'], root: object_node(m) }),
{
    let d2 = nested_doc(sec, m);
    let inner = object_node(m);
    let top = seq![(sec, inner)];
    assert(printable_node(inner));
    assert(distinct_keys(top));
    assert(printable_pairs(top, 0));
    assert(printable_pairs(top, 1));
    assert(printable_value(d2.root.value));
}

/// The reader at a line `[sec]` that starts the text: the open section is
/// `sec` when the next line starts.
#[verifier::spinoff_prover]
proof fn lemma_section_open(s: Seq<char>, sec: Seq<char>)
    requires
        trim(sec) == sec,
        forall|j: int| 0 <= j < sec.len() ==> #[trigger] sec[j] != ']',
        sec.len() + 3 < s.len(),
        s[0] == '[',
        s.subrange(1, sec.len() + 1int) == sec,
        s[sec.len() + 1int] == ']',
        s[sec.len() + 2int] == '\n',
        token_start(s, sec.len() + 3int),
    ensures
        parse_doc(s, 0) == doc_rest(
            s,
            sec.len() + 3int,
            DocState {
                root: Seq::empty(),
                section: Some(sec),
                pending: Seq::empty(),
                version: seq!['1', '.', '0'],
            },
        ),
{
    reveal_strlit("1.0");
    let h = sec.len() + 3int;
    let e = sec.len() + 1int;
    assert forall|j: int| 1 <= j < e implies !#[trigger] stops(Stop::Char(']'), s, j) by {
        assert(s[j] == s.subrange(1, e)[j - 1]);
    }
    lemma_scan_to(s, 1, Stop::Char(']'), e);
    assert(gap(s, 0, 0));
    lemma_gap_skip(s, 0, 0, 0);
    assert(gap(s, h - 1, h));
    lemma_gap_skip(s, h - 1, h, h - 1);
    lemma_gap_skip(s, h - 1, h, h);
    let st0 = DocState {
        root: Seq::empty(),
        section: Some(sec),
        pending: Seq::empty(),
        version: seq!['1', '.', '0'],
    };
    assert("1.0"@ =~= seq!['1', '.', '0']);
    assert(DocState { section: Some(sec), ..doc_start() } == st0);
    assert(s.subrange(1, e) == sec);
    lemma_doc_at_section(s, e, sec);
    lemma_doc_canon(s, h - 1, st0);
    reveal(doc_rest);
}

proof fn lemma_doc_at_section(s: Seq<char>, e: int, sec: Seq<char>)
    requires
        0 < e < s.len(),
        skip_ws(s, 0) == 0,
        s[0] == '[',
        scan(s, 1, Stop::Char(']')) == e,
        trim(s.subrange(1, e)) == sec,
    ensures
        doc_at(s, 0, doc_start()) == doc_at(s, e + 1, DocState { section: Some(sec), ..doc_start() }),
{
}

/// A section is a nested object: `[sec]` on a line of its own followed by
/// the pairs of `m` reads as the document whose root holds the one pair
/// `sec` with the object of `m`, the same document that reading the printed
/// form `sec: { … }` gives.
#[verifier::spinoff_prover]
#[verifier::rlimit(50)]
pub proof fn law_section_text_is_nested_object(sec: Seq<char>, m: Seq<(Seq<char>, SNode)>)
    requires
        m.len() > 0,
        printable_value(SValue::Object(m)),
        trim(sec) == sec,
        forall|j: int| 0 <= j < sec.len() ==> #[trigger] sec[j] != ']',
    ensures
        parse_doc(section_text(sec, m), 0) == Ok::<(SDocument, int), (Seq<char>, int)>(
            (nested_doc(sec, m), section_text(sec, m).len() as int),
        ),
        parse_doc(printed_doc(nested_doc(sec, m)), 0) == Ok::<(SDocument, int), (Seq<char>, int)>(
            (nested_doc(sec, m), printed_doc(nested_doc(sec, m)).len() as int),
        ),
{
    reveal_strlit("1.0");
    lemma_nested_printable(sec, m);
    law_print_then_parse(nested_doc(sec, m));

    let d1 = SDocument { version: seq!['1', '.', '0'], root: object_node(m) };
    let s = section_text(sec, m);
    let h = sec.len() + 3int;
    let pairs = doc_pairs(m, m.len() as int);
    assert(s =~= seq!['['] + sec + seq![']', '\n'] + pairs);
    assert(mat(s, h, pairs)) by {
        assert(s.subrange(h, h + pairs.len()) =~= pairs);
    }
    assert(m.take(0) =~= Seq::<(Seq<char>, SNode)>::empty());
    assert(doc_pairs(m, 0).len() == 0);
    lemma_section_from(s, h, d1, sec, 0);
    lemma_doc_from(s, h, d1, 0);
    assert(s.subrange(1, sec.len() + 1int) =~= sec);
    lemma_section_open(s, sec);
}

} // verus!
