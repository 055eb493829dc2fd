//! What holds of every document the parser returns: no object holds a key
//! twice (duplicate keys are rejected), every number is a literal that reads
//! as a double, every confidence is such a literal within `[0, 1]`, every
//! annotation prints back faithfully, and so printing it and reading the
//! text again gives it back; what a read of an object gives back after a
//! write; when the JSON projection succeeds; and that a section reads as a
//! nested object.
use vstd::prelude::*;

use crate::grammar::{
    ann_at, arr_at, at, bare_value, conf_at, doc_at, doc_finish, empty_object_node, kv_at,
    lemma_ann_at, lemma_kv_progress, lemma_scan, lemma_skip_ws, meta_at, obj_at, parse_doc,
    props_at, qstr, rem, scan, section_add, skip_ws, starts_at, stops, trail_anns, trim, trim_end,
    trim_start, val_at, DocState, Stop,
};
use crate::print::bare_prop_key;
use crate::text::is_ws;
use crate::model::{
    assoc_get, assoc_insert, distinct_keys, has_key, key_index, lemma_key_index, SAnnotation,
    SDocument, SNode, SValue,
};
use crate::number::{in_unit_interval, is_float_literal};
use crate::project::{
    annotation_json, annotations_json, project_items, project_node_spec, project_pairs,
    project_value_spec, projected_key, SJson,
};
use crate::roundtrip::{
    conf_ok, law_print_then_parse, lemma_skip_ws_fix, name_char, printable_ann, printable_doc,
    printable_items, printable_node, printable_pairs, printable_value, root_ann_ok, synth_text,
    trail_ok,
};
use crate::print::printed_doc;

verus! {

/// A node as the reader builds it.
pub open spec fn wf_node(n: SNode) -> bool
    decreases n, 1int,
{
    wf_value(n.value) && conf_ok(n.confidence) && anns_ok(n.annotations)
}

/// Every annotation of the list is one the printer writes faithfully.
pub open spec fn anns_ok(a: Seq<SAnnotation>) -> bool {
    forall|j: int| 0 <= j < a.len() ==> #[trigger] printable_ann(a[j])
}

/// No annotation of the list has a name that starts with `synthesize`.
pub open spec fn anns_trail(a: Seq<SAnnotation>) -> bool {
    forall|j: int| 0 <= j < a.len() ==> #[trigger] trail_ok(a[j])
}

/// No annotation of the list is `@cson`.
pub open spec fn no_cson(a: Seq<SAnnotation>) -> bool {
    forall|j: int| 0 <= j < a.len() ==> #[trigger] a[j].name != "cson"@
}

pub open spec fn wf_value(v: SValue) -> bool
    decreases v, 0int,
{
    match v {
        SValue::Number(t) => is_float_literal(t),
        SValue::Object(m) => distinct_keys(m) && wf_pairs(m, m.len() as int),
        SValue::Array(items) => wf_items(items, items.len() as int),
        _ => true,
    }
}

/// The nodes of the first `i` pairs are well formed.
pub open spec fn wf_pairs(m: Seq<(Seq<char>, SNode)>, i: int) -> bool
    decreases m, i,
{
    if i <= 0 || i > m.len() {
        true
    } else {
        wf_pairs(m, i - 1) && wf_node(m[i - 1].1)
    }
}

/// The first `i` elements are well formed, and none carries an annotation
/// whose name starts with `synthesize`.
pub open spec fn wf_items(items: Seq<SNode>, i: int) -> bool
    decreases items, i,
{
    if i <= 0 || i > items.len() {
        true
    } else {
        wf_items(items, i - 1) && wf_node(items[i - 1]) && anns_trail(items[i - 1].annotations)
    }
}

/// The pairs of an object as the reader builds them.
pub open spec fn wf_object(m: Seq<(Seq<char>, SNode)>) -> bool {
    distinct_keys(m) && wf_pairs(m, m.len() as int)
}

// ---------------------------------------------------------------------------
// Building well-formed lists
// ---------------------------------------------------------------------------

proof fn lemma_wf_pairs_same(
    m: Seq<(Seq<char>, SNode)>,
    m2: Seq<(Seq<char>, SNode)>,
    i: int,
)
    requires
        0 <= i <= m.len(),
        i <= m2.len(),
        forall|j: int| 0 <= j < i ==> #[trigger] m2[j].1 == m[j].1,
    ensures
        wf_pairs(m2, i) == wf_pairs(m, i),
    decreases i,
{
    if i > 0 {
        lemma_wf_pairs_same(m, m2, i - 1);
    }
}

proof fn lemma_wf_pairs_at(m: Seq<(Seq<char>, SNode)>, i: int, j: int)
    requires
        wf_pairs(m, i),
        0 <= j < i <= m.len(),
    ensures
        wf_node(m[j].1),
    decreases i,
{
    if j < i - 1 {
        lemma_wf_pairs_at(m, i - 1, j);
    }
}

proof fn lemma_wf_object_push(m: Seq<(Seq<char>, SNode)>, k: Seq<char>, n: SNode)
    requires
        wf_object(m),
        !has_key(m, k),
        wf_node(n),
    ensures
        wf_object(m.push((k, n))),
{
    let m2 = m.push((k, n));
    lemma_wf_pairs_same(m, m2, m.len() as int);
    assert forall|i: int, j: int|
        0 <= i < m2.len() && 0 <= j < m2.len() && i != j implies #[trigger] m2[i].0
        != #[trigger] m2[j].0 by {
        if i == m.len() {
            assert(m[j].0 == m2[j].0);
        } else if j == m.len() {
            assert(m[i].0 == m2[i].0);
        }
    }
}

proof fn lemma_wf_object_update(m: Seq<(Seq<char>, SNode)>, j: int, n: SNode)
    requires
        wf_object(m),
        0 <= j < m.len(),
        wf_node(n),
    ensures
        wf_object(m.update(j, (m[j].0, n))),
{
    let m2 = m.update(j, (m[j].0, n));
    lemma_wf_pairs_update(m, m2, j, m.len() as int);
    assert forall|a: int, b: int|
        0 <= a < m2.len() && 0 <= b < m2.len() && a != b implies #[trigger] m2[a].0
        != #[trigger] m2[b].0 by {
        assert(m2[a].0 == m[a].0);
        assert(m2[b].0 == m[b].0);
    }
}

proof fn lemma_wf_pairs_update(
    m: Seq<(Seq<char>, SNode)>,
    m2: Seq<(Seq<char>, SNode)>,
    j: int,
    i: int,
)
    requires
        wf_pairs(m, m.len() as int),
        0 <= j < m.len(),
        m2 == m.update(j, (m[j].0, m2[j].1)),
        wf_node(m2[j].1),
        0 <= i <= m.len(),
    ensures
        wf_pairs(m2, i),
    decreases i,
{
    if i > 0 {
        lemma_wf_pairs_update(m, m2, j, i - 1);
        if i - 1 != j {
            lemma_wf_pairs_at(m, m.len() as int, i - 1);
        }
    }
}

proof fn lemma_wf_items_push(items: Seq<SNode>, n: SNode)
    requires
        wf_items(items, items.len() as int),
        wf_node(n),
        anns_trail(n.annotations),
    ensures
        wf_items(items.push(n), items.len() + 1int),
{
    lemma_wf_items_same(items, items.push(n), items.len() as int);
}

proof fn lemma_wf_items_same(items: Seq<SNode>, items2: Seq<SNode>, i: int)
    requires
        0 <= i <= items.len(),
        i <= items2.len(),
        forall|j: int| 0 <= j < i ==> #[trigger] items2[j] == items[j],
    ensures
        wf_items(items2, i) == wf_items(items, i),
    decreases i,
{
    if i > 0 {
        lemma_wf_items_same(items, items2, i - 1);
    }
}

// ---------------------------------------------------------------------------
// Annotations as the reader builds them
// ---------------------------------------------------------------------------

proof fn lemma_trim_start_suffix(t: Seq<char>)
    ensures
        trim_start(t).len() <= t.len(),
        trim_start(t).len() > 0 ==> !is_ws(trim_start(t)[0]),
        trim_start(t) =~= t.subrange(t.len() - trim_start(t).len(), t.len() as int),
        (t.len() == 0 || !is_ws(t[0])) ==> trim_start(t) == t,
    decreases t.len(),
{
    if t.len() > 0 && is_ws(t[0]) {
        let d = t.drop_first();
        lemma_trim_start_suffix(d);
        let u = trim_start(d);
        assert(d.subrange(d.len() - u.len(), d.len() as int) =~= t.subrange(
            t.len() - u.len(),
            t.len() as int,
        ));
    }
}

proof fn lemma_trim_end_prefix(t: Seq<char>)
    ensures
        trim_end(t).len() <= t.len(),
        trim_end(t) =~= t.take(trim_end(t).len() as int),
        trim_end(t).len() > 0 ==> !is_ws(trim_end(t).last()),
        (t.len() == 0 || !is_ws(t.last())) ==> trim_end(t) == t,
    decreases t.len(),
{
    if t.len() > 0 && is_ws(t.last()) {
        let d = t.drop_last();
        lemma_trim_end_prefix(d);
        assert(d.take(trim_end(d).len() as int) =~= t.take(trim_end(d).len() as int));
    } else {
        assert(t.take(t.len() as int) =~= t);
    }
}

/// Trimming text that does not start with a blank keeps a prefix of it, and
/// what it gives is trimmed.
proof fn lemma_trim_head(raw: Seq<char>)
    requires
        raw.len() > 0 ==> !is_ws(raw[0]),
    ensures
        trim(raw).len() <= raw.len(),
        trim(raw) =~= raw.take(trim(raw).len() as int),
        trim(trim(raw)) == trim(raw),
{
    lemma_trim_start_suffix(raw);
    let k = trim_end(raw);
    lemma_trim_end_prefix(raw);
    if k.len() > 0 {
        assert(k[0] == raw[0]);
    }
    lemma_trim_start_suffix(k);
    lemma_trim_end_prefix(k);
}

/// Trimming twice trims once.
pub(crate) proof fn lemma_trim_twice(t: Seq<char>)
    ensures
        trim(trim(t)) == trim(t),
{
    let u = trim_start(t);
    lemma_trim_start_suffix(t);
    lemma_trim_start_suffix(u);
    assert(trim(u) == trim(t));
    lemma_trim_head(u);
}

proof fn lemma_assoc_insert_bare(
    acc: Seq<(Seq<char>, Seq<char>)>,
    k: Seq<char>,
    v: Seq<char>,
)
    requires
        distinct_keys(acc),
        forall|i: int| 0 <= i < acc.len() ==> #[trigger] bare_prop_key(acc[i].0),
        bare_prop_key(k),
    ensures
        distinct_keys(assoc_insert(acc, k, v)),
        forall|i: int|
            0 <= i < assoc_insert(acc, k, v).len() ==> #[trigger] bare_prop_key(
                assoc_insert(acc, k, v)[i].0,
            ),
{
    lemma_key_index(acc, k);
    let r = assoc_insert(acc, k, v);
    let i = key_index(acc, k);
    if i >= 0 {
        assert forall|a: int| 0 <= a < r.len() implies #[trigger] r[a].0 == acc[a].0 by {}
        assert forall|a: int, b: int|
            0 <= a < r.len() && 0 <= b < r.len() && a != b implies #[trigger] r[a].0
            != #[trigger] r[b].0 by {
            assert(r[a].0 == acc[a].0);
            assert(r[b].0 == acc[b].0);
        }
        assert forall|a: int| 0 <= a < r.len() implies #[trigger] bare_prop_key(r[a].0) by {
            assert(r[a].0 == acc[a].0);
        }
    } else {
        assert forall|a: int, b: int|
            0 <= a < r.len() && 0 <= b < r.len() && a != b implies #[trigger] r[a].0
            != #[trigger] r[b].0 by {
            if a == acc.len() {
                assert(acc[b].0 == r[b].0);
            } else if b == acc.len() {
                assert(acc[a].0 == r[a].0);
            }
        }
        assert forall|a: int| 0 <= a < r.len() implies #[trigger] bare_prop_key(r[a].0) by {
            if a < acc.len() {
                assert(r[a].0 == acc[a].0);
            }
        }
    }
}

proof fn lemma_props_ok(s: Seq<char>, q: int, acc: Seq<(Seq<char>, Seq<char>)>)
    requires
        0 <= q <= s.len(),
        distinct_keys(acc),
        forall|i: int| 0 <= i < acc.len() ==> #[trigger] bare_prop_key(acc[i].0),
    ensures
        props_at(s, q, acc) matches Ok((props, _)) ==> distinct_keys(props) && forall|i: int|
            0 <= i < props.len() ==> #[trigger] bare_prop_key(props[i].0),
    decreases rem(s, q),
{
    let q1 = skip_ws(s, q);
    lemma_skip_ws(s, q);
    if q1 < s.len() && s[q1] != '}' {
        let c = scan(s, q1, Stop::Char(':'));
        lemma_scan(s, q1, Stop::Char(':'));
        if c < s.len() {
            let raw = s.subrange(q1, c);
            let k = trim(raw);
            lemma_skip_ws_fix(s, q);
            lemma_trim_head(raw);
            assert(bare_prop_key(k)) by {
                assert forall|i: int| 0 <= i < k.len() implies #[trigger] k[i] != ':' by {
                    assert(k[i] == raw[i]);
                    assert(raw[i] == s[q1 + i]);
                    assert(!stops(Stop::Char(':'), s, q1 + i));
                }
                if k.len() > 0 {
                    assert(k[0] == s[q1]);
                }
                if k.len() > 1 {
                    assert(k[1] == s[q1 + 1]);
                }
            }
            let q3 = skip_ws(s, c + 1);
            lemma_skip_ws(s, c + 1);
            crate::grammar::lemma_qstr(s, q3);
            lemma_scan(s, q3, Stop::PropValueEnd);
            let vr = if at(s, q3, '"') {
                qstr(s, q3)
            } else {
                let ve = scan(s, q3, Stop::PropValueEnd);
                Ok((trim(s.subrange(q3, ve)), ve))
            };
            if let Ok((v, q4)) = vr {
                lemma_skip_ws(s, q4);
                let q5 = skip_ws(s, q4);
                let q6 = if at(s, q5, ',') {
                    q5 + 1
                } else {
                    q5
                };
                lemma_assoc_insert_bare(acc, k, v);
                lemma_props_ok(s, q6, assoc_insert(acc, k, v));
            }
        }
    }
}

/// Every annotation the reader builds is one the printer writes faithfully.
proof fn lemma_ann_ok(s: Seq<char>, p: int)
    requires
        0 <= p < s.len(),
    ensures
        ann_at(s, p) matches Ok((a, _)) ==> printable_ann(a) && a.name == s.subrange(
            p + 1,
            scan(s, p + 1, Stop::NameEnd),
        ),
{
    let ne = scan(s, p + 1, Stop::NameEnd);
    lemma_scan(s, p + 1, Stop::NameEnd);
    let name = s.subrange(p + 1, ne);
    assert forall|i: int| 0 <= i < name.len() implies #[trigger] name_char(name[i]) by {
        assert(name[i] == s[p + 1 + i]);
        assert(!stops(Stop::NameEnd, s, p + 1 + i));
    }
    let q1 = skip_ws(s, ne);
    lemma_skip_ws(s, ne);
    assert(distinct_keys(Seq::<(Seq<char>, Seq<char>)>::empty()));
    if at(s, q1, '(') {
        let e = scan(s, q1 + 1, Stop::Char(')'));
        lemma_scan(s, q1 + 1, Stop::Char(')'));
        if e < s.len() {
            let t = s.subrange(q1 + 1, e);
            assert forall|i: int| 0 <= i < t.len() implies #[trigger] t[i] != ')' by {
                assert(t[i] == s[q1 + 1 + i]);
                assert(!stops(Stop::Char(')'), s, q1 + 1 + i));
            }
            let q2 = skip_ws(s, e + 1);
            lemma_skip_ws(s, e + 1);
            if at(s, q2, '{') {
                lemma_props_ok(s, q2 + 1, Seq::empty());
            }
        }
    } else {
        let q2 = skip_ws(s, q1);
        lemma_skip_ws(s, q1);
        if at(s, q2, '{') {
            lemma_props_ok(s, q2 + 1, Seq::empty());
        }
    }
}

/// The annotations that trail an array element are faithful and none is
/// named `synthesize…`.
proof fn lemma_trail_ok(s: Seq<char>, q: int, acc: Seq<SAnnotation>)
    requires
        0 <= q <= s.len(),
        anns_ok(acc),
        anns_trail(acc),
    ensures
        trail_anns(s, q, acc) matches Ok((a, _)) ==> anns_ok(a) && anns_trail(a),
    decreases rem(s, q),
{
    let q1 = skip_ws(s, q);
    lemma_skip_ws(s, q);
    reveal_strlit("@synthesize");
    reveal_strlit("synthesize");
    if at(s, q1, '@') && !starts_at(s, q1, "@synthesize"@) {
        lemma_ann_at(s, q1);
        lemma_ann_ok(s, q1);
        let ne = scan(s, q1 + 1, Stop::NameEnd);
        lemma_scan(s, q1 + 1, Stop::NameEnd);
        if let Ok((a, q2)) = ann_at(s, q1) {
            assert(trail_ok(a)) by {
                if a.name.len() >= 10 && a.name.take(10) == "synthesize"@ {
                    assert(ne >= q1 + 11);
                    assert forall|i: int| 0 <= i < 11 implies #[trigger] s.subrange(q1, q1 + 11)[i]
                        == "@synthesize"@[i] by {
                        if i > 0 {
                            assert(s[q1 + i] == s.subrange(q1 + 1, ne)[i - 1]);
                            assert(a.name[i - 1] == a.name.take(10)[i - 1]);
                        }
                    }
                    assert(s.subrange(q1, q1 + 11) =~= "@synthesize"@);
                }
            }
            let acc2 = acc.push(a);
            assert(anns_ok(acc2)) by {
                assert forall|j: int| 0 <= j < acc2.len() implies #[trigger] printable_ann(acc2[j]) by {
                    if j < acc.len() {
                        assert(acc2[j] == acc[j]);
                    }
                }
            }
            assert(anns_trail(acc2)) by {
                assert forall|j: int| 0 <= j < acc2.len() implies #[trigger] trail_ok(acc2[j]) by {
                    if j < acc.len() {
                        assert(acc2[j] == acc[j]);
                    }
                }
            }
            lemma_trail_ok(s, q2, acc2);
        }
    }
}

proof fn lemma_anns_push(acc: Seq<SAnnotation>, a: SAnnotation)
    requires
        anns_ok(acc),
        printable_ann(a),
    ensures
        anns_ok(acc.push(a)),
{
    assert forall|j: int| 0 <= j < acc.push(a).len() implies #[trigger] printable_ann(acc.push(a)[j]) by {
        if j < acc.len() {
            assert(acc.push(a)[j] == acc[j]);
        }
    }
}

// ---------------------------------------------------------------------------
// The readers build well-formed nodes
// ---------------------------------------------------------------------------

proof fn lemma_conf_wf(s: Seq<char>, p: int)
    ensures
        conf_at(s, p) matches Ok((c, _)) ==> conf_ok(c),
{
}

proof fn lemma_meta_wf(
    s: Seq<char>,
    q: int,
    c: Option<Seq<char>>,
    anns: Seq<crate::model::SAnnotation>,
)
    requires
        0 <= q <= s.len(),
        conf_ok(c),
        anns_ok(anns),
    ensures
        meta_at(s, q, c, anns) matches Ok(((c2, a2), _)) ==> conf_ok(c2) && anns_ok(a2),
    decreases rem(s, q),
{
    crate::grammar::lemma_meta_at(s, q, c, anns);
    let q1 = skip_ws(s, q);
    lemma_skip_ws(s, q);
    if q1 < s.len() {
        if s[q1] == '@' {
            crate::grammar::lemma_ann_at(s, q1);
            lemma_ann_ok(s, q1);
            if let Ok((a, q2)) = crate::grammar::ann_at(s, q1) {
                lemma_anns_push(anns, a);
                lemma_meta_wf(s, q2, c, anns.push(a));
            }
        } else {
            crate::grammar::lemma_conf_at(s, q1);
            lemma_conf_wf(s, q1);
            if let Ok((Some(c1), q2)) = conf_at(s, q1) {
                if c is None {
                    lemma_meta_wf(s, q2, Some(c1), anns);
                }
            }
        }
    }
}

proof fn lemma_val_wf(s: Seq<char>, p: int)
    requires
        0 <= p <= s.len(),
    ensures
        val_at(s, p) matches Ok(((v, c), _)) ==> wf_value(v) && conf_ok(c),
    decreases rem(s, p), 0int,
{
    let q0 = skip_ws(s, p);
    lemma_skip_ws(s, p);
    crate::grammar::lemma_val_progress(s, p);
    if q0 < s.len() {
        if s[q0] == '{' {
            lemma_obj_wf(s, q0 + 1, Seq::empty());
        }
        if s[q0] == '[' {
            lemma_arr_wf(s, q0 + 1, Seq::empty());
        }
        assert(distinct_keys(Seq::<(Seq<char>, SNode)>::empty()));
        reveal_strlit("true");
        reveal_strlit("false");
        reveal_strlit("null");
        crate::grammar::lemma_ann_at(s, q0);
        crate::grammar::lemma_qstr(s, q0);
        crate::grammar::lemma_scan(s, q0, crate::grammar::Stop::BareEnd);
        crate::grammar::lemma_obj_progress(s, q0 + 1, Seq::empty());
        crate::grammar::lemma_arr_progress(s, q0 + 1, Seq::empty());
        let r = if s[q0] == '@' {
            match crate::grammar::ann_at(s, q0) {
                Err(e) => Err(e),
                Ok((a, q)) => if a.name == "synthesize"@ {
                    Ok(
                        (
                            SValue::Synthesize(
                                crate::grammar::trim_quotes(crate::grammar::args_text(a.args)),
                            ),
                            q,
                        ),
                    )
                } else {
                    Err(("Only @synthesize is supported as a value annotation"@, q))
                },
            }
        } else if s[q0] == '"' {
            match crate::grammar::qstr(s, q0) {
                Err(e) => Err(e),
                Ok((t, q)) => Ok((SValue::Str(t), q)),
            }
        } else if crate::grammar::keyword_at(s, q0, "true"@) {
            Ok((SValue::Boolean(true), q0 + 4))
        } else if crate::grammar::keyword_at(s, q0, "false"@) {
            Ok((SValue::Boolean(false), q0 + 5))
        } else if crate::grammar::keyword_at(s, q0, "null"@) {
            Ok((SValue::Null, q0 + 4))
        } else if s[q0] == '{' {
            obj_at(s, q0 + 1, Seq::empty())
        } else if s[q0] == '[' {
            arr_at(s, q0 + 1, Seq::empty())
        } else {
            let e = crate::grammar::scan(s, q0, crate::grammar::Stop::BareEnd);
            Ok((bare_value(crate::grammar::trim(s.subrange(q0, e))), e))
        };
        assert(r matches Ok((v, q)) ==> wf_value(v) && q0 <= q <= s.len());
        if let Ok((v, q)) = r {
            lemma_skip_ws(s, q);
            lemma_conf_wf(s, skip_ws(s, q));
        }
    }
}

proof fn lemma_obj_wf(s: Seq<char>, q: int, acc: Seq<(Seq<char>, SNode)>)
    requires
        0 <= q <= s.len(),
        wf_object(acc),
    ensures
        obj_at(s, q, acc) matches Ok((v, _)) ==> wf_value(v),
    decreases rem(s, q), 1int,
{
    let q1 = skip_ws(s, q);
    lemma_skip_ws(s, q);
    if q1 < s.len() && s[q1] != '}' {
        lemma_kv_progress(s, q1);
        lemma_kv_wf(s, q1);
        if let Ok((Some((k, n)), q2)) = kv_at(s, q1) {
            let kt = crate::model::key_text(k);
            if q2 > q1 && !has_key(acc, kt) {
                let q3 = skip_ws(s, q2);
                lemma_skip_ws(s, q2);
                let q4 = if crate::grammar::at(s, q3, ',') {
                    q3 + 1
                } else {
                    q3
                };
                lemma_wf_object_push(acc, kt, n);
                lemma_obj_wf(s, q4, acc.push((kt, n)));
            }
        }
    }
}

proof fn lemma_arr_wf(s: Seq<char>, q: int, acc: Seq<SNode>)
    requires
        0 <= q <= s.len(),
        wf_items(acc, acc.len() as int),
    ensures
        arr_at(s, q, acc) matches Ok((v, _)) ==> wf_value(v),
    decreases rem(s, q), 1int,
{
    let q1 = skip_ws(s, q);
    lemma_skip_ws(s, q);
    if q1 < s.len() && s[q1] != ']' {
        crate::grammar::lemma_val_progress(s, q1);
        lemma_val_wf(s, q1);
        if let Ok(((v, c), q2)) = val_at(s, q1) {
            crate::grammar::lemma_trail_anns(s, q2, Seq::empty());
            lemma_trail_ok(s, q2, Seq::empty());
            if let Ok((anns, q3)) = crate::grammar::trail_anns(s, q2, Seq::empty()) {
                let q4 = skip_ws(s, q3);
                lemma_skip_ws(s, q3);
                let q5 = if crate::grammar::at(s, q4, ',') {
                    q4 + 1
                } else {
                    q4
                };
                if q5 > q1 {
                    let n = SNode { value: v, confidence: c, annotations: anns };
                    lemma_wf_items_push(acc, n);
                    lemma_arr_wf(s, q5, acc.push(n));
                }
            }
        }
    }
}

proof fn lemma_kv_wf(s: Seq<char>, p: int)
    requires
        0 <= p <= s.len(),
    ensures
        kv_at(s, p) matches Ok((Some((_, n)), _)) ==> wf_node(n),
    decreases rem(s, p), 0int,
{
    let q0 = skip_ws(s, p);
    lemma_skip_ws(s, p);
    if q0 < s.len() && !(s[q0] == '[' || s[q0] == '@' || s[q0] == '}' || s[q0] == ']') {
        let q1 = if s[q0] == '~' {
            q0 + 1
        } else {
            q0
        };
        crate::grammar::lemma_key_at(s, q1);
        if let Ok((kt, q2)) = crate::grammar::key_at(s, q1) {
            let q3 = skip_ws(s, q2);
            lemma_skip_ws(s, q2);
            if crate::grammar::at(s, q3, ':') {
                lemma_skip_ws(s, q3 + 1);
                lemma_val_wf(s, skip_ws(s, q3 + 1));
                crate::grammar::lemma_val_progress(s, skip_ws(s, q3 + 1));
                if let Ok(((v, c), q4)) = val_at(s, skip_ws(s, q3 + 1)) {
                    assert(anns_ok(Seq::<SAnnotation>::empty()));
                    lemma_meta_wf(s, q4, c, Seq::empty());
                }
            }
        }
    }
}

// ---------------------------------------------------------------------------
// Documents
// ---------------------------------------------------------------------------

proof fn lemma_section_add_wf(
    root: Seq<(Seq<char>, SNode)>,
    sec: Seq<char>,
    kt: Seq<char>,
    n: SNode,
)
    requires
        wf_object(root),
        wf_node(n),
    ensures
        section_add(root, sec, kt, n) matches Ok(r) ==> wf_object(r),
{
    let root1 = if has_key(root, sec) {
        root
    } else {
        root.push((sec, empty_object_node()))
    };
    assert(distinct_keys(Seq::<(Seq<char>, SNode)>::empty()));
    assert(wf_node(empty_object_node()));
    if !has_key(root, sec) {
        lemma_wf_object_push(root, sec, empty_object_node());
        assert(root1[root.len() as int].0 == sec);
    }
    assert(has_key(root1, sec));
    lemma_key_index(root1, sec);
    let i = key_index(root1, sec);
    let sn = root1[i].1;
    lemma_wf_pairs_at(root1, root1.len() as int, i);
    if let SValue::Object(m) = sn.value {
        if !has_key(m, kt) {
            lemma_wf_object_push(m, kt, n);
            let sn2 = SNode { value: SValue::Object(m.push((kt, n))), ..sn };
            assert(wf_node(sn2));
            lemma_wf_object_update(root1, i, sn2);
        }
    }
}

proof fn lemma_doc_wf(s: Seq<char>, q: int, st: DocState)
    requires
        wf_object(st.root),
        anns_ok(st.pending),
        no_cson(st.pending),
    ensures
        doc_at(s, q, st) matches Ok((d, _)) ==> wf_node(d.root) && no_cson(d.root.annotations)
            && d.root.value is Object && d.root.confidence is None,
    decreases rem(s, q),
{
    assert(wf_node(doc_finish(st).root));
    assert(anns_ok(Seq::<SAnnotation>::empty()));
    assert(no_cson(Seq::<SAnnotation>::empty()));
    if 0 <= q < s.len() {
        let q1 = skip_ws(s, q);
        lemma_skip_ws(s, q);
        if q1 < s.len() {
            if s[q1] == '@' {
                crate::grammar::lemma_ann_at(s, q1);
                lemma_ann_ok(s, q1);
                if let Ok((a, q2)) = crate::grammar::ann_at(s, q1) {
                    if a.name == "cson"@ {
                        lemma_doc_wf(
                            s,
                            q2,
                            DocState { version: crate::grammar::cson_version(a, st.version), ..st },
                        );
                    } else {
                        lemma_anns_push(st.pending, a);
                        let p2 = st.pending.push(a);
                        assert forall|j: int| 0 <= j < p2.len() implies #[trigger] p2[j].name != "cson"@ by {
                            if j < st.pending.len() {
                                assert(p2[j] == st.pending[j]);
                            }
                        }
                        lemma_doc_wf(s, q2, DocState { pending: st.pending.push(a), ..st });
                    }
                }
            } else if s[q1] == '[' {
                let e = crate::grammar::scan(s, q1 + 1, crate::grammar::Stop::Char(']'));
                crate::grammar::lemma_scan(s, q1 + 1, crate::grammar::Stop::Char(']'));
                if e < s.len() {
                    lemma_doc_wf(
                        s,
                        e + 1,
                        DocState {
                            section: Some(crate::grammar::trim(s.subrange(q1 + 1, e))),
                            ..st
                        },
                    );
                }
            } else {
                lemma_kv_progress(s, q1);
                lemma_kv_wf(s, q1);
                if let Ok((Some((k, n)), q2)) = kv_at(s, q1) {
                    let n2 = SNode { annotations: n.annotations + st.pending, ..n };
                    let kt = crate::model::key_text(k);
                    let a2 = n.annotations + st.pending;
                    assert forall|j: int| 0 <= j < a2.len() implies #[trigger] printable_ann(a2[j]) by {
                        if j < n.annotations.len() {
                            assert(a2[j] == n.annotations[j]);
                        } else {
                            assert(a2[j] == st.pending[j - n.annotations.len()]);
                        }
                    }
                    assert(wf_node(n2));
                    match st.section {
                        None => {
                            if !has_key(st.root, kt) {
                                lemma_wf_object_push(st.root, kt, n2);
                                lemma_doc_wf(
                                    s,
                                    q2,
                                    DocState {
                                        root: st.root.push((kt, n2)),
                                        pending: Seq::empty(),
                                        ..st
                                    },
                                );
                            }
                        },
                        Some(sec) => {
                            lemma_section_add_wf(st.root, sec, kt, n2);
                            if let Ok(root2) = section_add(st.root, sec, kt, n2) {
                                lemma_doc_wf(
                                    s,
                                    q2,
                                    DocState { root: root2, pending: Seq::empty(), ..st },
                                );
                            }
                        },
                    }
                }
            }
        }
    }
}

/// Every document the parser returns is well formed: no object in it holds
/// a key twice, every number is a literal that reads as a double, every
/// confidence is such a literal within `[0.0, 1.0]`, and every annotation is
/// one the printer writes back faithfully (no annotation of an array element
/// is named `synthesize…`, none of the root is `@cson`).
pub proof fn law_parsed_well_formed(s: Seq<char>, p: int)
    ensures
        parse_doc(s, p) matches Ok((d, _)) ==> wf_node(d.root) && no_cson(d.root.annotations)
            && d.root.value is Object && d.root.confidence is None,
{
    assert(distinct_keys(Seq::<(Seq<char>, SNode)>::empty()));
    assert(anns_ok(Seq::<SAnnotation>::empty()));
    assert(no_cson(Seq::<SAnnotation>::empty()));
    lemma_doc_wf(s, p, crate::grammar::doc_start());
}


// ---------------------------------------------------------------------------
// Objects and property lists
// ---------------------------------------------------------------------------

proof fn lemma_key_index_is<V>(m: Seq<(Seq<char>, V)>, k: Seq<char>, j: int)
    requires
        0 <= j < m.len(),
        m[j].0 == k,
        forall|l: int| 0 <= l < j ==> m[l].0 != k,
    ensures
        key_index(m, k) == j,
{
    lemma_key_index(m, k);
    if key_index(m, k) < 0 {
        assert(m[j].0 != k);
    }
}

proof fn lemma_key_index_same_keys<V>(m: Seq<(Seq<char>, V)>, m2: Seq<(Seq<char>, V)>, k: Seq<char>)
    requires
        m.len() <= m2.len(),
        forall|l: int| 0 <= l < m.len() ==> #[trigger] m2[l].0 == m[l].0,
        has_key(m, k),
    ensures
        key_index(m2, k) == key_index(m, k),
{
    lemma_key_index(m, k);
    let j = key_index(m, k);
    assert forall|l: int| 0 <= l < j implies m2[l].0 != k by {
        assert(m2[l].0 == m[l].0);
    }
    lemma_key_index_is(m2, k, j);
}

/// Storing keeps the order of insertion: a key already held keeps its
/// place (the keys stay as they were, one after the other), and a new key
/// goes after all the others.
pub proof fn law_insert_keeps_order<V>(m: Seq<(Seq<char>, V)>, k: Seq<char>, v: V)
    ensures
        has_key(m, k) ==> assoc_insert(m, k, v).len() == m.len() && forall|i: int|
            0 <= i < m.len() ==> (#[trigger] assoc_insert(m, k, v)[i]).0 == m[i].0,
        !has_key(m, k) ==> assoc_insert(m, k, v) == m.push((k, v)),
{
    lemma_key_index(m, k);
}

/// Storing a value under a key (as `CsonMap::insert` and
/// `PropertyMap::insert` do): reading that key gives the value back, reading
/// any other key gives what it gave before, and no key comes to occur twice.
pub proof fn law_insert_then_get<V>(m: Seq<(Seq<char>, V)>, k: Seq<char>, v: V, other: Seq<char>)
    ensures
        assoc_get(assoc_insert(m, k, v), k) == Some(v),
        other != k ==> assoc_get(assoc_insert(m, k, v), other) == assoc_get(m, other),
        distinct_keys(m) ==> distinct_keys(assoc_insert(m, k, v)),
        has_key(assoc_insert(m, k, v), k),
{
    let m2 = assoc_insert(m, k, v);
    lemma_key_index(m, k);
    lemma_key_index(m, other);
    let i = key_index(m, k);
    if i >= 0 {
        assert forall|l: int| 0 <= l < m.len() implies #[trigger] m2[l].0 == m[l].0 by {}
        lemma_key_index_same_keys(m, m2, k);
        if has_key(m, other) {
            lemma_key_index_same_keys(m, m2, other);
        } else {
            lemma_key_index(m2, other);
            if has_key(m2, other) {
                let j = key_index(m2, other);
                assert(m[j].0 == other);
            }
        }
        if distinct_keys(m) {
            assert forall|a: int, b: int|
                0 <= a < m2.len() && 0 <= b < m2.len() && a != b implies #[trigger] m2[a].0
                != #[trigger] m2[b].0 by {
                assert(m2[a].0 == m[a].0);
                assert(m2[b].0 == m[b].0);
            }
        }
        assert(m2[i].0 == k);
    } else {
        assert forall|l: int| 0 <= l < m.len() implies #[trigger] m2[l].0 == m[l].0 by {}
        assert forall|l: int| 0 <= l < m.len() implies m2[l].0 != k by {}
        lemma_key_index_is(m2, k, m.len() as int);
        if has_key(m, other) {
            lemma_key_index_same_keys(m, m2, other);
        } else {
            lemma_key_index(m2, other);
            if has_key(m2, other) {
                let j = key_index(m2, other);
                if j < m.len() {
                    assert(m[j].0 == other);
                }
            }
        }
        if distinct_keys(m) {
            assert forall|a: int, b: int|
                0 <= a < m2.len() && 0 <= b < m2.len() && a != b implies #[trigger] m2[a].0
                != #[trigger] m2[b].0 by {
                if a == m.len() {
                    assert(m[b].0 == m2[b].0);
                } else if b == m.len() {
                    assert(m[a].0 == m2[a].0);
                } else {
                    assert(m2[a].0 == m[a].0);
                    assert(m2[b].0 == m[b].0);
                }
            }
        }
        assert(m2[m.len() as int].0 == k);
    }
}


// ---------------------------------------------------------------------------
// The JSON projection
// ---------------------------------------------------------------------------

/// Some key in the node, once its `~` is dropped, starts with `$`.
pub open spec fn reserved_node(n: SNode) -> bool
    decreases n, 1int,
{
    reserved_value(n.value)
}

pub open spec fn reserved_value(v: SValue) -> bool
    decreases v, 0int,
{
    match v {
        SValue::Object(m) => reserved_pairs(m),
        SValue::Array(items) => reserved_items(items),
        _ => false,
    }
}

pub open spec fn reserved_pairs(m: Seq<(Seq<char>, SNode)>) -> bool
    decreases m, 0int,
{
    if m.len() == 0 {
        false
    } else {
        reserved_pairs(m.drop_last()) || ({
            let k = projected_key(m.last().0);
            k.len() > 0 && k[0] == '$'
        }) || reserved_node(m.last().1)
    }
}

pub open spec fn reserved_items(items: Seq<SNode>) -> bool
    decreases items, 0int,
{
    if items.len() == 0 {
        false
    } else {
        reserved_items(items.drop_last()) || reserved_node(items.last())
    }
}

proof fn lemma_project_node(n: SNode)
    ensures
        project_node_spec(n) is Err <==> reserved_node(n),
        project_node_spec(n) matches Err(k) ==> k.len() > 0 && k[0] == '$',
    decreases n, 1int,
{
    lemma_project_value(n.value);
}

proof fn lemma_project_value(v: SValue)
    ensures
        project_value_spec(v) is Err <==> reserved_value(v),
        project_value_spec(v) matches Err(k) ==> k.len() > 0 && k[0] == '$',
    decreases v, 0int,
{
    match v {
        SValue::Object(m) => lemma_project_pairs(m),
        SValue::Array(items) => lemma_project_items(items),
        _ => {},
    }
}

proof fn lemma_project_pairs(m: Seq<(Seq<char>, SNode)>)
    ensures
        project_pairs(m) is Err <==> reserved_pairs(m),
        project_pairs(m) matches Err(k) ==> k.len() > 0 && k[0] == '$',
    decreases m, 0int,
{
    if m.len() > 0 {
        lemma_project_pairs(m.drop_last());
        lemma_project_node(m.last().1);
    }
}

proof fn lemma_project_items(items: Seq<SNode>)
    ensures
        project_items(items) is Err <==> reserved_items(items),
        project_items(items) matches Err(k) ==> k.len() > 0 && k[0] == '$',
    decreases items, 0int,
{
    if items.len() > 0 {
        lemma_project_items(items.drop_last());
        lemma_project_node(items.last());
    }
}

/// Every node has a JSON projection, unless a key in it is reserved: the
/// projection fails exactly when some key, with a semantic key's `~`
/// dropped, starts with `$`, and the key it reports is such a key.
pub proof fn law_projection_fails_only_on_reserved_keys(n: SNode)
    ensures
        project_node_spec(n) is Err <==> reserved_node(n),
        project_node_spec(n) matches Err(k) ==> k.len() > 0 && k[0] == '$',
{
    lemma_project_node(n);
}

/// Scalars project to the JSON scalar of the same value: a string to that
/// string, a number to that number literal, `true`/`false` to the same
/// boolean, `null` to `null`; `@synthesize("t")` to `{"$synthesize": "t"}`.
pub proof fn law_project_scalars(v: SValue)
    ensures
        v matches SValue::Str(t) ==> project_value_spec(v) == Ok::<SJson, Seq<char>>(SJson::Str(t)),
        v matches SValue::Number(t) ==> project_value_spec(v) == Ok::<SJson, Seq<char>>(
            SJson::Number(t),
        ),
        v matches SValue::Boolean(b) ==> project_value_spec(v) == Ok::<SJson, Seq<char>>(
            SJson::Bool(b),
        ),
        v is Null ==> project_value_spec(v) == Ok::<SJson, Seq<char>>(SJson::Null),
        v matches SValue::Synthesize(t) ==> project_value_spec(v) == Ok::<SJson, Seq<char>>(
            SJson::Object(seq![("$synthesize"@, SJson::Str(t))]),
        ),
{
}

/// A node with neither confidence nor annotations projects to its value
/// alone. A node with either projects to an object whose first member is
/// `$value` (the value's projection), then `$confidence` (the literal) when
/// it has one, then `$annotations` (one entry per annotation, in order, each
/// starting with its `name` and `args`) when it has any, and nothing else.
pub proof fn law_project_node(n: SNode)
    ensures
        n.confidence is None && n.annotations.len() == 0 ==> project_node_spec(n)
            == project_value_spec(n.value),
        project_value_spec(n.value) is Err ==> project_node_spec(n) == project_value_spec(n.value),
        project_value_spec(n.value) matches Ok(j) ==> (!(n.confidence is None
            && n.annotations.len() == 0) ==> ({
            let nc: int = if n.confidence is Some { 1 } else { 0 };
            let na: int = if n.annotations.len() > 0 { 1 } else { 0 };
            project_node_spec(n) matches Ok(SJson::Object(w)) && {
                &&& w.len() == 1 + nc + na
                &&& w[0] == ("$value"@, j)
                &&& (n.confidence matches Some(c) ==> w[1] == ("$confidence"@, SJson::Number(c)))
                &&& (n.annotations.len() > 0 ==> w[nc + 1].0 == "$annotations"@ && (w[nc
                    + 1].1 matches SJson::Array(js) && js.len() == n.annotations.len() && forall|
                    i: int,
                |
                    0 <= i < js.len() ==> (#[trigger] js[i] matches SJson::Object(o) && o.len()
                        == 3 && o[0] == ("name"@, SJson::Str(n.annotations[i].name)) && o[1] == (
                        "args"@,
                        match n.annotations[i].args {
                            Some(x) => SJson::Str(x),
                            None => SJson::Null,
                        },
                    ) && o[2].0 == "properties"@)))
            }
        })),
{
    lemma_annotations_json(n.annotations);
}

proof fn lemma_annotations_json(a: Seq<SAnnotation>)
    ensures
        annotations_json(a).len() == a.len(),
        forall|i: int|
            0 <= i < a.len() ==> #[trigger] annotations_json(a)[i] == annotation_json(a[i]),
    decreases a.len(),
{
    if a.len() > 0 {
        lemma_annotations_json(a.drop_last());
    }
}

/// An array projects element by element: the same number of entries, the
/// entry at each place the projection of the element there.
pub proof fn law_project_array(items: Seq<SNode>)
    ensures
        project_value_spec(SValue::Array(items)) matches Ok(r) ==> (r matches SJson::Array(js)
            && js.len() == items.len() && forall|i: int|
            0 <= i < items.len() ==> project_node_spec(#[trigger] items[i]) == Ok::<
                SJson,
                Seq<char>,
            >(js[i])),
    decreases items.len(),
{
    if items.len() > 0 {
        law_project_array(items.drop_last());
        if let Ok(js) = project_items(items) {
            let d = items.drop_last();
            assert forall|i: int| 0 <= i < items.len() implies project_node_spec(
                #[trigger] items[i],
            ) == Ok::<SJson, Seq<char>>(js[i]) by {
                if i < d.len() {
                    assert(items[i] == d[i]);
                }
            }
        }
    }
}

/// The pairs of an object whose keys stay distinct once a semantic key's `~`
/// is dropped project pair by pair, in order: member `i` has the projected
/// key of pair `i` and the projection of its node.
pub proof fn law_project_object(m: Seq<(Seq<char>, SNode)>)
    requires
        forall|i: int, j: int|
            0 <= i < m.len() && 0 <= j < m.len() && i != j ==> projected_key(#[trigger] m[i].0)
                != projected_key(#[trigger] m[j].0),
    ensures
        project_value_spec(SValue::Object(m)) matches Ok(r) ==> (r matches SJson::Object(ps)
            && ps.len() == m.len() && forall|i: int|
            0 <= i < m.len() ==> (#[trigger] ps[i]).0 == projected_key(m[i].0)
                && project_node_spec(m[i].1) == Ok::<SJson, Seq<char>>(ps[i].1)),
    decreases m.len(),
{
    if m.len() > 0 {
        let d = m.drop_last();
        assert forall|i: int, j: int|
            0 <= i < d.len() && 0 <= j < d.len() && i != j implies projected_key(#[trigger] d[i].0)
            != projected_key(#[trigger] d[j].0) by {
            assert(d[i] == m[i] && d[j] == m[j]);
        }
        law_project_object(d);
        if let Ok(ps0) = project_pairs(d) {
            let key = projected_key(m.last().0);
            if !(key.len() > 0 && key[0] == '$') {
                if let Ok(j) = project_node_spec(m.last().1) {
                    lemma_key_index(ps0, key);
                    assert forall|l: int| 0 <= l < ps0.len() implies ps0[l].0 != key by {
                        assert(d[l] == m[l]);
                        assert(m.last() == m[m.len() - 1]);
                    }
                    let ps = ps0.push((key, j));
                    assert(assoc_insert(ps0, key, j) == ps);
                    assert forall|i: int| 0 <= i < m.len() implies (#[trigger] ps[i]).0
                        == projected_key(m[i].0) && project_node_spec(m[i].1) == Ok::<
                        SJson,
                        Seq<char>,
                    >(ps[i].1) by {
                        if i < d.len() {
                            assert(d[i] == m[i]);
                        }
                    }
                }
            }
        }
    }
}

/// A semantic key projects to its text: the stored `~t` to `t`; any other
/// key projects to itself.
pub proof fn law_projected_key(t: Seq<char>, k: Seq<char>)
    requires
        k.len() == 0 || k[0] != '~',
    ensures
        projected_key(seq!['~'] + t) == t,
        projected_key(k) == k,
{
    assert((seq!['~'] + t).skip(1) =~= t);
}


// ---------------------------------------------------------------------------
// Sections
// ---------------------------------------------------------------------------

/// The root pairs once the pairs `pairs` are read, in order, under the
/// section `sec` (as the document reader adds each of them), or the key held
/// twice.
pub open spec fn section_fold(
    root: Seq<(Seq<char>, SNode)>,
    sec: Seq<char>,
    pairs: Seq<(Seq<char>, SNode)>,
) -> Result<Seq<(Seq<char>, SNode)>, Seq<char>>
    decreases pairs.len(),
{
    if pairs.len() == 0 {
        Ok(root)
    } else {
        match section_fold(root, sec, pairs.drop_last()) {
            Err(k) => Err(k),
            Ok(r) => section_add(r, sec, pairs.last().0, pairs.last().1),
        }
    }
}

/// A pair `kt` under section `sec`: when the root has no `sec` yet, `sec`
/// is added after the other pairs as an object holding just that pair; when
/// `sec` holds an object, the pair is added after its pairs, in place
/// (refused with the key `kt` when the object already holds it); when `sec`
/// holds anything else, the pair is refused with the key `sec`.
pub proof fn law_section_add(
    root: Seq<(Seq<char>, SNode)>,
    sec: Seq<char>,
    kt: Seq<char>,
    n: SNode,
)
    ensures
        !has_key(root, sec) ==> section_add(root, sec, kt, n) == Ok::<
            Seq<(Seq<char>, SNode)>,
            Seq<char>,
        >(
            root.push(
                (
                    sec,
                    SNode {
                        value: SValue::Object(seq![(kt, n)]),
                        confidence: None,
                        annotations: Seq::empty(),
                    },
                ),
            ),
        ),
        has_key(root, sec) ==> ({
            let i = key_index(root, sec);
            let sn = root[i].1;
            match sn.value {
                SValue::Object(m) => if has_key(m, kt) {
                    section_add(root, sec, kt, n) == Err::<Seq<(Seq<char>, SNode)>, Seq<char>>(kt)
                } else {
                    section_add(root, sec, kt, n) == Ok::<Seq<(Seq<char>, SNode)>, Seq<char>>(
                        root.update(i, (sec, SNode { value: SValue::Object(m.push((kt, n))), ..sn })),
                    )
                },
                _ => section_add(root, sec, kt, n) == Err::<Seq<(Seq<char>, SNode)>, Seq<char>>(sec),
            }
        }),
{
    lemma_key_index(root, sec);
    if !has_key(root, sec) {
        let root1 = root.push((sec, empty_object_node()));
        lemma_key_index(root1, sec);
        assert(root1[root.len() as int].0 == sec);
        assert(has_key(root1, sec));
        assert forall|j: int| 0 <= j < root.len() implies root1[j].0 != sec by {
            assert(root1[j] == root[j]);
        }
        assert(key_index(root1, sec) == root.len());
        assert(!has_key(Seq::<(Seq<char>, SNode)>::empty(), kt));
        assert(Seq::<(Seq<char>, SNode)>::empty().push((kt, n)) =~= seq![(kt, n)]);
        assert(root1.update(root.len() as int, (sec, SNode {
            value: SValue::Object(seq![(kt, n)]),
            confidence: None,
            annotations: Seq::empty(),
        })) =~= root.push((sec, SNode {
            value: SValue::Object(seq![(kt, n)]),
            confidence: None,
            annotations: Seq::empty(),
        })));
    }
}

/// A section is a nested object: reading pairs with distinct keys under a
/// new section `[sec]` gives the root with one more pair, `sec`, whose value
/// is the object of those pairs, as `sec: { … }` would.
pub proof fn law_section_is_nested_object(
    root: Seq<(Seq<char>, SNode)>,
    sec: Seq<char>,
    pairs: Seq<(Seq<char>, SNode)>,
)
    requires
        !has_key(root, sec),
        pairs.len() > 0,
        distinct_keys(pairs),
    ensures
        section_fold(root, sec, pairs) == Ok::<Seq<(Seq<char>, SNode)>, Seq<char>>(
            root.push(
                (
                    sec,
                    SNode {
                        value: SValue::Object(pairs),
                        confidence: None,
                        annotations: Seq::empty(),
                    },
                ),
            ),
        ),
    decreases pairs.len(),
{
    let last = pairs.last();
    let pre = pairs.drop_last();
    assert(pre.push(last) =~= pairs);
    let j = root.len() as int;
    if pairs.len() == 1 {
        assert(pre =~= Seq::<(Seq<char>, SNode)>::empty());
        let r1 = root.push((sec, empty_object_node()));
        assert forall|l: int| 0 <= l < j implies r1[l].0 != sec by {
            assert(r1[l] == root[l]);
            if r1[l].0 == sec {
                assert(has_key(root, sec));
            }
        }
        lemma_key_index_is(r1, sec, j);
        assert(!has_key(Seq::<(Seq<char>, SNode)>::empty(), last.0));
        assert(Seq::<(Seq<char>, SNode)>::empty().push((last.0, last.1)) =~= pairs);
        assert(r1.update(j, (sec, SNode {
            value: SValue::Object(Seq::<(Seq<char>, SNode)>::empty().push((last.0, last.1))),
            ..empty_object_node()
        })) =~= root.push((sec, SNode { value: SValue::Object(pairs), confidence: None, annotations: Seq::empty() })));
    } else {
        assert forall|a: int, b: int|
            0 <= a < pre.len() && 0 <= b < pre.len() && a != b implies #[trigger] pre[a].0
            != #[trigger] pre[b].0 by {
            assert(pre[a] == pairs[a]);
            assert(pre[b] == pairs[b]);
        }
        law_section_is_nested_object(root, sec, pre);
        let r = root.push((sec, SNode { value: SValue::Object(pre), confidence: None, annotations: Seq::empty() }));
        assert(r[j].0 == sec);
        assert(has_key(r, sec));
        assert forall|l: int| 0 <= l < j implies r[l].0 != sec by {
            assert(r[l] == root[l]);
            if r[l].0 == sec {
                assert(has_key(root, sec));
            }
        }
        lemma_key_index_is(r, sec, j);
        if has_key(pre, last.0) {
            let i = choose|i: int| 0 <= i < pre.len() && #[trigger] pre[i].0 == last.0;
            assert(pairs[i].0 == pairs[pairs.len() - 1].0);
        }
        assert(r.update(j, (sec, SNode {
            value: SValue::Object(pre.push((last.0, last.1))),
            ..r[j].1
        })) =~= root.push((sec, SNode { value: SValue::Object(pairs), confidence: None, annotations: Seq::empty() })));
    }
}


// ---------------------------------------------------------------------------
// What was read prints back
// ---------------------------------------------------------------------------

/// Every `@synthesize` text in the node is one that quoting leaves as it is
/// (no `"`, `\`, newline, tab, carriage return or `)`).
pub open spec fn plain_synth_node(n: SNode) -> bool
    decreases n, 1int,
{
    plain_synth_value(n.value)
}

pub open spec fn plain_synth_value(v: SValue) -> bool
    decreases v, 0int,
{
    match v {
        SValue::Synthesize(t) => synth_text(t),
        SValue::Object(m) => plain_synth_pairs(m, m.len() as int),
        SValue::Array(items) => plain_synth_items(items, items.len() as int),
        _ => true,
    }
}

pub open spec fn plain_synth_pairs(m: Seq<(Seq<char>, SNode)>, i: int) -> bool
    decreases m, i,
{
    if i <= 0 || i > m.len() {
        true
    } else {
        plain_synth_pairs(m, i - 1) && plain_synth_node(m[i - 1].1)
    }
}

pub open spec fn plain_synth_items(items: Seq<SNode>, i: int) -> bool
    decreases items, i,
{
    if i <= 0 || i > items.len() {
        true
    } else {
        plain_synth_items(items, i - 1) && plain_synth_node(items[i - 1])
    }
}

proof fn lemma_node_printable(n: SNode)
    requires
        wf_node(n),
        plain_synth_node(n),
    ensures
        printable_node(n),
    decreases n, 1int,
{
    lemma_value_printable(n.value);
}

proof fn lemma_value_printable(v: SValue)
    requires
        wf_value(v),
        plain_synth_value(v),
    ensures
        printable_value(v),
    decreases v, 0int,
{
    match v {
        SValue::Object(m) => {
            lemma_pairs_printable(m, m.len() as int);
        },
        SValue::Array(items) => {
            lemma_items_printable(items, items.len() as int);
            assert(items.take(items.len() as int) =~= items);
        },
        _ => {},
    }
}

proof fn lemma_pairs_printable(m: Seq<(Seq<char>, SNode)>, i: int)
    requires
        0 <= i <= m.len(),
        wf_pairs(m, i),
        plain_synth_pairs(m, i),
    ensures
        printable_pairs(m, i),
    decreases m, i,
{
    if i > 0 {
        lemma_pairs_printable(m, i - 1);
        lemma_node_printable(m[i - 1].1);
    }
}

proof fn lemma_items_printable(items: Seq<SNode>, i: int)
    requires
        0 <= i <= items.len(),
        wf_items(items, i),
        plain_synth_items(items, i),
    ensures
        printable_items(items.take(i)),
    decreases items, i,
{
    if i > 0 {
        lemma_items_printable(items, i - 1);
        lemma_node_printable(items[i - 1]);
        let t = items.take(i);
        assert(t.drop_last() =~= items.take(i - 1));
        assert(t.last() == items[i - 1]);
    } else {
        assert(items.take(0).len() == 0);
    }
}

/// Printing a document that the parser read, and reading the printed text,
/// gives that document back and reads the whole text, whenever its
/// `@synthesize` texts hold nothing that quoting changes.
pub proof fn law_parse_print_parse(s: Seq<char>)
    ensures
        parse_doc(s, 0) matches Ok((d, _)) ==> (plain_synth_node(d.root) ==> parse_doc(
            printed_doc(d),
            0,
        ) == Ok::<(SDocument, int), (Seq<char>, int)>((d, printed_doc(d).len() as int))),
{
    law_parsed_well_formed(s, 0);
    if let Ok((d, _)) = parse_doc(s, 0) {
        if plain_synth_node(d.root) {
            lemma_node_printable(d.root);
            assert forall|j: int| 0 <= j < d.root.annotations.len() implies #[trigger] root_ann_ok(
                d.root.annotations[j],
            ) by {
                assert(printable_ann(d.root.annotations[j]));
                assert(d.root.annotations[j].name != "cson"@);
            }
            assert(printable_doc(d));
            law_print_then_parse(d);
        }
    }
}

} // verus!
