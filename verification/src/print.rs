//! CSON printer — the inverse of the parser.
//!
//! Printing keeps what carries meaning (values, confidence, annotations,
//! semantic keys, the document version) and not syntax: comments are gone,
//! `[section]` sugar prints as a nested object, and a key is written bare
//! only when that is safe, quoted otherwise. Pairs inside an object are
//! separated by commas, pairs of the document by newlines, and the
//! annotations of the document's root follow its pairs, one per line.
//! Annotation arguments are written as they are, as the reader keeps them.
use vstd::prelude::*;

use crate::grammar::{trim, trim_end, trim_start};
use crate::model::{
    anns_view, entries_view, lemma_entries_view, lemma_nodes_view, node_view, nodes_view,
    CsonAnnotation, CsonDocument, CsonMap, CsonNode, CsonValue, PropertyMap, SAnnotation,
    SDocument, SNode, SValue,
};
use crate::text::{chars_of, is_whitespace, is_ws, push_char};

verus! {

/// How one character is written inside quotes: a quote, a backslash, a
/// newline, a tab and a carriage return escaped as the reader unescapes
/// them; any other character as it is.
pub open spec fn escape(c: char) -> Seq<char> {
    if c == '"' {
        seq!['\\', '"']
    } else if c == '\\' {
        seq!['\\', '\\']
    } else if c == '\n' {
        seq!['\\', 'n']
    } else if c == '\t' {
        seq!['\\', 't']
    } else if c == '\r' {
        seq!['\\', 'r']
    } else {
        seq![c]
    }
}

pub open spec fn escape_all(s: Seq<char>) -> Seq<char>
    decreases s.len(),
{
    if s.len() == 0 {
        Seq::empty()
    } else {
        escape_all(s.drop_last()) + escape(s.last())
    }
}

/// A string in double quotes, escaped.
pub open spec fn quoted(s: Seq<char>) -> Seq<char> {
    seq!['"'] + escape_all(s) + seq!['"']
}

/// Characters that end or change the meaning of a bare key.
pub open spec fn key_breaker(c: char) -> bool {
    c == ':' || c == '\n' || c == '"' || c == '#' || c == ',' || c == '{' || c == '}' || c == '['
        || c == ']'
}

/// Text that a reader would take for the start of a `//` comment.
pub open spec fn opens_comment(k: Seq<char>) -> bool {
    k.len() >= 2 && k[0] == '/' && k[1] == '/'
}

/// A key that may be written without quotes: not empty, without surrounding
/// blanks, without a character that would end it, and not looking like an
/// annotation, a semantic key, a reserved `$` key, a comment, or the
/// arguments of an annotation written before it.
pub open spec fn safe_bare_key(k: Seq<char>) -> bool {
    &&& k.len() > 0
    &&& trim(k) == k
    &&& forall|i: int| 0 <= i < k.len() ==> !#[trigger] key_breaker(k[i])
    &&& k[0] != '@' && k[0] != '~' && k[0] != '$' && k[0] != '('
    &&& !opens_comment(k)
}

/// How a stored key is written: a semantic key (stored with its `~`) as `~`
/// and its quoted intent; a safe key bare; any other quoted.
pub open spec fn printed_key(k: Seq<char>) -> Seq<char> {
    if k.len() > 0 && k[0] == '~' {
        seq!['~'] + quoted(k.skip(1))
    } else if safe_bare_key(k) {
        k
    } else {
        quoted(k)
    }
}

/// A property key that the property reader takes back as it stands: it
/// reads up to the first `:` and trims, after skipping blanks and comments,
/// and stops at `}`. So no `:`, no blank at either end, and no start that
/// reads as a comment or as the end of the properties.
pub open spec fn bare_prop_key(k: Seq<char>) -> bool {
    &&& forall|i: int| 0 <= i < k.len() ==> #[trigger] k[i] != ':'
    &&& trim(k) == k
    &&& (k.len() > 0 ==> k[0] != '}' && k[0] != '#' && !opens_comment(k))
}

/// How a property key is written: bare when the reader takes it back so,
/// quoted otherwise.
pub open spec fn printed_prop_key(k: Seq<char>) -> Seq<char> {
    if bare_prop_key(k) {
        k
    } else {
        quoted(k)
    }
}

pub open spec fn prop_text(k: Seq<char>, v: Seq<char>) -> Seq<char> {
    printed_prop_key(k) + seq![':', ' '] + quoted(v)
}

/// Annotation properties, separated by `, `.
pub open spec fn props_text(p: Seq<(Seq<char>, Seq<char>)>) -> Seq<char>
    decreases p.len(),
{
    if p.len() == 0 {
        Seq::empty()
    } else if p.len() == 1 {
        prop_text(p[0].0, p[0].1)
    } else {
        props_text(p.drop_last()) + seq![',', ' '] + prop_text(p.last().0, p.last().1)
    }
}

pub open spec fn printed_annotation(a: SAnnotation) -> Seq<char> {
    seq!['@'] + a.name + (match a.args {
        Some(x) => seq!['('] + x + seq![')'],
        None => Seq::empty(),
    }) + (if a.properties.len() == 0 {
        Seq::empty()
    } else {
        seq![' ', '{', ' '] + props_text(a.properties) + seq![' ', '}']
    })
}

/// Each annotation preceded by a blank.
pub open spec fn anns_text(a: Seq<SAnnotation>) -> Seq<char>
    decreases a.len(),
{
    if a.len() == 0 {
        Seq::empty()
    } else {
        anns_text(a.drop_last()) + seq![' '] + printed_annotation(a.last())
    }
}

pub open spec fn spaces(n: nat) -> Seq<char>
    decreases n,
{
    if n == 0 {
        Seq::empty()
    } else {
        spaces((n - 1) as nat).push(' ')
    }
}

/// A node at indentation `ind`: its value, then ` ~<confidence>` when one is
/// stated, then its annotations.
pub open spec fn printed_node(n: SNode, ind: Seq<char>) -> Seq<char>
    decreases n, 0int,
{
    printed_value(n.value, ind) + (match n.confidence {
        Some(c) => seq![' ', '~'] + c,
        None => Seq::empty(),
    }) + anns_text(n.annotations)
}

pub open spec fn printed_value(v: SValue, ind: Seq<char>) -> Seq<char>
    decreases v, 0int,
{
    match v {
        SValue::Str(s) => quoted(s),
        SValue::Number(t) => t,
        SValue::Boolean(b) => if b {
            seq!['t', 'r', 'u', 'e']
        } else {
            seq!['f', 'a', 'l', 's', 'e']
        },
        SValue::Null => seq!['n', 'u', 'l', 'l'],
        SValue::Synthesize(s) => seq!['@', 's', 'y', 'n', 't', 'h', 'e', 's', 'i', 'z', 'e', '(']
            + quoted(s) + seq![')'],
        SValue::Array(items) => if items.len() == 0 {
            seq!['[', ']']
        } else {
            seq!['['] + items_text(items, ind) + seq![']']
        },
        SValue::Object(m) => if m.len() == 0 {
            seq!['{', '}']
        } else {
            seq!['{', '\n'] + pairs_text(m, ind + seq![' ', ' '], m.len() as int) + ind + seq!['}']
        },
    }
}

/// Array elements, separated by `, `.
pub open spec fn items_text(items: Seq<SNode>, ind: Seq<char>) -> Seq<char>
    decreases items, 0int,
{
    if items.len() == 0 {
        Seq::empty()
    } else if items.len() == 1 {
        printed_node(items[0], ind)
    } else {
        items_text(items.drop_last(), ind) + seq![',', ' '] + printed_node(items.last(), ind)
    }
}

/// A pair on a line of its own at indentation `ind`, ended by `trailing`.
pub open spec fn printed_pair(k: Seq<char>, n: SNode, ind: Seq<char>, trailing: Seq<char>) -> Seq<char>
    decreases n, 1int,
{
    ind + printed_key(k) + seq![':', ' '] + printed_node(n, ind) + trailing
}

/// The first `i` pairs of an object: each ends with `,` and a newline but the
/// last of the object, which ends with a newline alone.
pub open spec fn pairs_text(m: Seq<(Seq<char>, SNode)>, ind: Seq<char>, i: int) -> Seq<char>
    decreases m, i,
{
    if i <= 0 || i > m.len() {
        Seq::empty()
    } else {
        pairs_text(m, ind, i - 1) + printed_pair(
            m[i - 1].0,
            m[i - 1].1,
            ind,
            if i == m.len() {
                seq!['\n']
            } else {
                seq![',', '\n']
            },
        )
    }
}

/// The pairs of the document, each on a line of its own.
pub open spec fn doc_pairs(m: Seq<(Seq<char>, SNode)>, i: int) -> Seq<char>
    decreases i,
{
    if i <= 0 || i > m.len() {
        Seq::empty()
    } else {
        doc_pairs(m, i - 1) + printed_pair(m[i - 1].0, m[i - 1].1, Seq::empty(), seq!['\n'])
    }
}

/// Annotations of a document, each on a line of its own.
pub open spec fn root_anns_text(a: Seq<SAnnotation>) -> Seq<char>
    decreases a.len(),
{
    if a.len() == 0 {
        Seq::empty()
    } else {
        root_anns_text(a.drop_last()) + printed_annotation(a.last()) + seq!['\n']
    }
}

/// The root object holds at least one pair.
pub open spec fn has_pairs(v: SValue) -> bool {
    match v {
        SValue::Object(m) => m.len() > 0,
        _ => false,
    }
}

/// What follows the pairs of a document: the annotations of its root, which
/// the reader keeps for the root when no pair follows them. After a pair they
/// come after an empty `[]` section line, which ends the pair (an annotation
/// right after it would be the pair's own) and adds nothing.
pub open spec fn doc_tail(d: SDocument) -> Seq<char> {
    (if d.root.annotations.len() > 0 && has_pairs(d.root.value) {
        seq!['[', ']', '\n']
    } else {
        Seq::empty()
    }) + root_anns_text(d.root.annotations)
}

/// A document: the `@cson` version line when the version is not `1.0`, then
/// the pairs of its root object, then the annotations of its root.
pub open spec fn printed_doc(d: SDocument) -> Seq<char> {
    (if d.version != seq!['1', '.', '0'] {
        seq!['@', 'c', 's', 'o', 'n', ' ', '{', ' ', 'v', 'e', 'r', 's', 'i', 'o', 'n', ':', ' ']
            + quoted(d.version) + seq![' ', '}', '\n']
    } else {
        Seq::empty()
    }) + (match d.root.value {
        SValue::Object(m) => doc_pairs(m, m.len() as int),
        _ => Seq::empty(),
    }) + doc_tail(d)
}

// ---------------------------------------------------------------------------
// Lemmas on the printed forms
// ---------------------------------------------------------------------------

pub(crate) proof fn lemma_take_step<A>(s: Seq<A>, i: int)
    requires
        0 <= i < s.len(),
    ensures
        s.take(i + 1).drop_last() == s.take(i),
        s.take(i + 1).last() == s[i],
        s.take(i + 1).len() == i + 1,
{
    assert(s.take(i + 1).drop_last() =~= s.take(i));
}

pub(crate) proof fn lemma_trim_start_len(t: Seq<char>)
    ensures
        trim_start(t).len() <= t.len(),
        t.len() > 0 && is_ws(t[0]) ==> trim_start(t).len() < t.len(),
    decreases t.len(),
{
    if t.len() > 0 && is_ws(t[0]) {
        lemma_trim_start_len(t.drop_first());
    }
}

pub(crate) proof fn lemma_trim_end_len(t: Seq<char>)
    ensures
        trim_end(t).len() <= t.len(),
        t.len() > 0 && is_ws(t.last()) ==> trim_end(t).len() < t.len(),
    decreases t.len(),
{
    if t.len() > 0 && is_ws(t.last()) {
        lemma_trim_end_len(t.drop_last());
    }
}

// ---------------------------------------------------------------------------
// Executable printer
// ---------------------------------------------------------------------------

fn push_escaped(out: &mut String, c: char)
    ensures
        final(out)@ == old(out)@ + escape(c),
{
    let ghost o = out@;
    if c == '"' {
        push_char(out, '\\');
        push_char(out, '"');
        assert(out@ =~= o + escape(c));
    } else if c == '\\' {
        push_char(out, '\\');
        push_char(out, '\\');
        assert(out@ =~= o + escape(c));
    } else if c == '\n' {
        push_char(out, '\\');
        push_char(out, 'n');
        assert(out@ =~= o + escape(c));
    } else if c == '\t' {
        push_char(out, '\\');
        push_char(out, 't');
        assert(out@ =~= o + escape(c));
    } else if c == '\r' {
        push_char(out, '\\');
        push_char(out, 'r');
        assert(out@ =~= o + escape(c));
    } else {
        push_char(out, c);
        assert(out@ =~= o + escape(c));
    }
}

/// `s` in double quotes, escaped.
fn quote(s: &str) -> (r: String)
    ensures
        r@ == quoted(s@),
{
    let v = chars_of(s);
    let mut out = String::new();
    push_char(&mut out, '"');
    let mut i: usize = 0;
    while i < v.len()
        invariant
            v@ == s@,
            i <= v.len(),
            out@ == seq!['"'] + escape_all(v@.take(i as int)),
        decreases v.len() - i,
    {
        proof {
            lemma_take_step(v@, i as int);
        }
        push_escaped(&mut out, v[i]);
        i = i + 1;
        assert(out@ =~= seq!['"'] + escape_all(v@.take(i as int)));
    }
    push_char(&mut out, '"');
    assert(v@.take(v.len() as int) =~= v@);
    assert(out@ =~= quoted(s@));
    out
}

/// Whether `key` may be written bare (see `safe_bare_key`).
fn is_safe_bare_key(key: &str) -> (r: bool)
    ensures
        r == safe_bare_key(key@),
{
    let v = chars_of(key);
    if v.len() == 0 {
        return false;
    }
    let (lo, hi) = crate::scan::trim_bounds(&v, 0, v.len());
    assert(v@.subrange(0, v.len() as int) =~= v@);
    if !(lo == 0 && hi == v.len()) {
        assert(trim(v@).len() < v@.len());
        return false;
    }
    assert(trim(v@) =~= v@);
    let mut i: usize = 0;
    while i < v.len()
        invariant
            v@ == key@,
            i <= v.len(),
            forall|j: int| 0 <= j < i ==> !#[trigger] key_breaker(v@[j]),
        decreases v.len() - i,
    {
        let c = v[i];
        if c == ':' || c == '\n' || c == '"' || c == '#' || c == ',' || c == '{' || c == '}' || c
            == '[' || c == ']' {
            assert(key_breaker(v@[i as int]));
            return false;
        }
        i = i + 1;
    }
    v[0] != '@' && v[0] != '~' && v[0] != '$' && v[0] != '(' && !(v.len() >= 2 && v[0] == '/'
        && v[1] == '/')
}

/// Whether a property key may be written bare (see `bare_prop_key`).
fn is_bare_prop_key(key: &str) -> (r: bool)
    ensures
        r == bare_prop_key(key@),
{
    let v = chars_of(key);
    let mut i: usize = 0;
    while i < v.len()
        invariant
            v@ == key@,
            i <= v.len(),
            forall|j: int| 0 <= j < i ==> #[trigger] v@[j] != ':',
        decreases v.len() - i,
    {
        if v[i] == ':' {
            assert(v@[i as int] == ':');
            return false;
        }
        i = i + 1;
    }
    let (lo, hi) = crate::scan::trim_bounds(&v, 0, v.len());
    assert(v@.subrange(0, v.len() as int) =~= v@);
    if !(lo == 0 && hi == v.len()) {
        if v.len() > 0 {
            assert(trim(v@).len() < v@.len());
        } else {
            assert(false);
        }
        return false;
    }
    assert(trim(v@) =~= v@);
    if v.len() == 0 {
        return true;
    }
    v[0] != '}' && v[0] != '#' && !(v.len() >= 2 && v[0] == '/' && v[1] == '/')
}

/// How a property key is written (see `printed_prop_key`).
fn print_prop_key(key: &str) -> (r: String)
    ensures
        r@ == printed_prop_key(key@),
{
    if is_bare_prop_key(key) {
        crate::text::string_of_seq_str(key)
    } else {
        quote(key)
    }
}

/// How a stored key is written (see `printed_key`).
fn print_key(key: &str) -> (r: String)
    ensures
        r@ == printed_key(key@),
{
    let v = chars_of(key);
    if v.len() > 0 && v[0] == '~' {
        let intent = crate::text::string_of(&v, 1, v.len());
        assert(v@.subrange(1, v.len() as int) =~= key@.skip(1));
        let q = quote(intent.as_str());
        let mut r = String::new();
        push_char(&mut r, '~');
        r.append(q.as_str());
        assert(r@ =~= printed_key(key@));
        return r;
    }
    if is_safe_bare_key(key) {
        crate::text::string_of_seq_str(key)
    } else {
        quote(key)
    }
}

fn print_annotation(out: &mut String, ann: &CsonAnnotation)
    ensures
        final(out)@ == old(out)@ + printed_annotation(ann@),
{
    let ghost o = out@;
    push_char(out, '@');
    out.append(ann.name.as_str());
    let ghost after_name = out@;
    assert(after_name =~= o + seq!['@'] + ann.name@);
    match &ann.args {
        Some(args) => {
            push_char(out, '(');
            out.append(args.as_str());
            push_char(out, ')');
        },
        None => {},
    }
    let ghost after_args = out@;
    assert(after_args =~= after_name + (match ann@.args {
        Some(x) => seq!['('] + x + seq![')'],
        None => Seq::<char>::empty(),
    }));
    let props = &ann.properties;
    let n = props.entries.len();
    if n > 0 {
        push_char(out, ' ');
        push_char(out, '{');
        push_char(out, ' ');
        let ghost base = out@;
        let ghost pv = props@;
        let mut i: usize = 0;
        while i < n
            invariant
                n == props.entries.len(),
                pv == props@,
                pv.len() == n,
                i <= n,
                out@ == base + props_text(pv.take(i as int)),
            decreases n - i,
        {
            proof {
                lemma_take_step(pv, i as int);
                assert(pv[i as int] == (props.entries@[i as int].0@, props.entries@[i as int].1@));
            }
            if i > 0 {
                push_char(out, ',');
                push_char(out, ' ');
            }
            let k = print_prop_key(props.entries[i].0.as_str());
            out.append(k.as_str());
            push_char(out, ':');
            push_char(out, ' ');
            let q = quote(props.entries[i].1.as_str());
            out.append(q.as_str());
            i = i + 1;
            assert(out@ =~= base + props_text(pv.take(i as int)));
        }
        push_char(out, ' ');
        push_char(out, '}');
        assert(pv.take(n as int) =~= pv);
    }
    assert(out@ =~= old(out)@ + printed_annotation(ann@));
}

fn print_node_into(out: &mut String, node: &CsonNode, ind: &String)
    ensures
        final(out)@ == old(out)@ + printed_node(node@, ind@),
    decreases node, 0int,
{
    let ghost o = out@;
    print_value(out, &node.value, ind);
    let ghost after_value = out@;
    match &node.confidence {
        Some(c) => {
            push_char(out, ' ');
            push_char(out, '~');
            out.append(c.as_str());
        },
        None => {},
    }
    let ghost base = out@;
    assert(base =~= after_value + (match node@.confidence {
        Some(c) => seq![' ', '~'] + c,
        None => Seq::<char>::empty(),
    }));
    let ghost av = anns_view(node.annotations@);
    let mut i: usize = 0;
    while i < node.annotations.len()
        invariant
            av == anns_view(node.annotations@),
            i <= node.annotations.len(),
            out@ == base + anns_text(av.take(i as int)),
        decreases node.annotations.len() - i,
    {
        proof {
            lemma_take_step(av, i as int);
        }
        push_char(out, ' ');
        print_annotation(out, &node.annotations[i]);
        i = i + 1;
        assert(out@ =~= base + anns_text(av.take(i as int)));
    }
    assert(av.take(node.annotations.len() as int) =~= av);
    assert(out@ =~= o + printed_node(node@, ind@));
}

fn print_value(out: &mut String, value: &CsonValue, ind: &String)
    ensures
        final(out)@ == old(out)@ + printed_value(value@, ind@),
    decreases value, 0int,
{
    let ghost o = out@;
    match value {
        CsonValue::String(s) => {
            let q = quote(s.as_str());
            out.append(q.as_str());
        },
        CsonValue::Number(t) => {
            out.append(t.as_str());
        },
        CsonValue::Boolean(b) => {
            if *b {
                push_char(out, 't');
                push_char(out, 'r');
                push_char(out, 'u');
                push_char(out, 'e');
            } else {
                push_char(out, 'f');
                push_char(out, 'a');
                push_char(out, 'l');
                push_char(out, 's');
                push_char(out, 'e');
            }
        },
        CsonValue::Null => {
            push_char(out, 'n');
            push_char(out, 'u');
            push_char(out, 'l');
            push_char(out, 'l');
        },
        CsonValue::Synthesize(s) => {
            let lit = chars_of("@synthesize(");
            proof {
                reveal_strlit("@synthesize(");
            }
            let mut j: usize = 0;
            while j < lit.len()
                invariant
                    lit@ == "@synthesize("@,
                    j <= lit.len(),
                    out@ == o + lit@.take(j as int),
                decreases lit.len() - j,
            {
                push_char(out, lit[j]);
                j = j + 1;
                assert(out@ =~= o + lit@.take(j as int));
            }
            assert(lit@.take(lit.len() as int) =~= seq![
                '@',
                's',
                'y',
                'n',
                't',
                'h',
                'e',
                's',
                'i',
                'z',
                'e',
                '(',
            ]);
            let q = quote(s.as_str());
            out.append(q.as_str());
            push_char(out, ')');
        },
        CsonValue::Array(items) => {
            if items.len() == 0 {
                push_char(out, '[');
                push_char(out, ']');
            } else {
                push_char(out, '[');
                let ghost base = out@;
                let ghost nv = nodes_view(items@);
                proof {
                    lemma_nodes_view(items@);
                }
                let mut i: usize = 0;
                while i < items.len()
                    invariant
                        *value == CsonValue::Array(*items),
                        nv == nodes_view(items@),
                        nv.len() == items.len(),
                        forall|k: int| 0 <= k < items.len() ==> #[trigger] nv[k] == node_view(items@[k]),
                        i <= items.len(),
                        out@ == base + items_text(nv.take(i as int), ind@),
                    decreases items.len() - i,
                {
                    proof {
                        lemma_take_step(nv, i as int);
                    }
                    if i > 0 {
                        push_char(out, ',');
                        push_char(out, ' ');
                    }
                    proof {
                        assert(decreases_to!(*value => (*value)->Array_0));
                        assert(decreases_to!((*value)->Array_0 => (*value)->Array_0@));
                        assert(decreases_to!(*value => items@[i as int]));
                    }
                    print_node_into(out, &items[i], ind);
                    i = i + 1;
                    assert(out@ =~= base + items_text(nv.take(i as int), ind@));
                }
                push_char(out, ']');
                assert(nv.take(items.len() as int) =~= nv);
            }
        },
        CsonValue::Object(m) => {
            if m.entries.len() == 0 {
                push_char(out, '{');
                push_char(out, '}');
                proof {
                    lemma_entries_view(m.entries@);
                }
            } else {
                push_char(out, '{');
                push_char(out, '\n');
                let mut inner = ind.clone();
                inner.append("  ");
                proof {
                    reveal_strlit("  ");
                    assert(inner@ =~= ind@ + seq![' ', ' ']);
                }
                let ghost base = out@;
                let ghost mv = entries_view(m.entries@);
                proof {
                    lemma_entries_view(m.entries@);
                }
                let n = m.entries.len();
                let mut i: usize = 0;
                while i < n
                    invariant
                        *value == CsonValue::Object(*m),
                        n == m.entries.len(),
                        mv == entries_view(m.entries@),
                        mv.len() == n,
                        forall|k: int|
                            0 <= k < n ==> #[trigger] mv[k] == (m.entries@[k].0@, node_view(
                                m.entries@[k].1,
                            )),
                        inner@ == ind@ + seq![' ', ' '],
                        i <= n,
                        out@ == base + pairs_text(mv, inner@, i as int),
                    decreases n - i,
                {
                    proof {
                        let ghost mm = (*value)->Object_0;
                        assert(decreases_to!(*value => (*value)->Object_0));
                        assert(decreases_to!(mm => mm.entries));
                        assert(decreases_to!(mm.entries => mm.entries@));
                        assert(decreases_to!(mm.entries@ => mm.entries@[i as int]));
                        assert(decreases_to!(mm.entries@[i as int] => mm.entries@[i as int].1));
                        assert(decreases_to!(*value => m.entries@[i as int].1));
                    }
                    print_pair(
                        out,
                        m.entries[i].0.as_str(),
                        &m.entries[i].1,
                        &inner,
                        i + 1 == n,
                    );
                    i = i + 1;
                    assert(out@ =~= base + pairs_text(mv, inner@, i as int));
                }
                out.append(ind.as_str());
                push_char(out, '}');
            }
        },
    }
    assert(out@ =~= o + printed_value(value@, ind@));
}

/// Writes a pair on a line of its own; `last` tells whether it ends its object
/// (newline alone) or not (`,` and newline).
fn print_pair(out: &mut String, key: &str, node: &CsonNode, ind: &String, last: bool)
    ensures
        final(out)@ == old(out)@ + printed_pair(
            key@,
            node@,
            ind@,
            if last {
                seq!['\n']
            } else {
                seq![',', '\n']
            },
        ),
    decreases node, 1int,
{
    let ghost o = out@;
    out.append(ind.as_str());
    let k = print_key(key);
    out.append(k.as_str());
    push_char(out, ':');
    push_char(out, ' ');
    print_node_into(out, node, ind);
    if !last {
        push_char(out, ',');
    }
    push_char(out, '\n');
    assert(out@ =~= o + printed_pair(
        key@,
        node@,
        ind@,
        if last {
            seq!['\n']
        } else {
            seq![',', '\n']
        },
    ));
}

/// Print a document as CSON: the version line when the version is not the
/// default `1.0`, then each pair of the root object on a line of its own.
pub fn print_document(doc: &CsonDocument) -> (r: String)
    ensures
        r@ == printed_doc(doc@),
{
    let mut out = String::new();
    let default_version = crate::text::string_of_seq_str("1.0");
    proof {
        reveal_strlit("1.0");
        assert(default_version@ =~= seq!['1', '.', '0']);
    }
    if !doc.version.eq(&default_version) {
        let lit = chars_of("@cson { version: ");
        proof {
            reveal_strlit("@cson { version: ");
        }
        let mut j: usize = 0;
        while j < lit.len()
            invariant
                lit@ == "@cson { version: "@,
                j <= lit.len(),
                out@ == lit@.take(j as int),
            decreases lit.len() - j,
        {
            push_char(&mut out, lit[j]);
            j = j + 1;
            assert(out@ =~= lit@.take(j as int));
        }
        let q = quote(doc.version.as_str());
        out.append(q.as_str());
        push_char(&mut out, ' ');
        push_char(&mut out, '}');
        push_char(&mut out, '\n');
        assert(lit@.take(lit.len() as int) =~= lit@);
        assert(lit@ =~= seq![
            '@',
            'c',
            's',
            'o',
            'n',
            ' ',
            '{',
            ' ',
            'v',
            'e',
            'r',
            's',
            'i',
            'o',
            'n',
            ':',
            ' ',
        ]);
    }
    let ghost base = out@;
    let empty = String::new();
    match &doc.root.value {
        CsonValue::Object(m) => {
            let ghost mv = entries_view(m.entries@);
            proof {
                lemma_entries_view(m.entries@);
            }
            let n = m.entries.len();
            let mut i: usize = 0;
            while i < n
                invariant
                    n == m.entries.len(),
                    mv == entries_view(m.entries@),
                    mv.len() == n,
                    forall|k: int|
                        0 <= k < n ==> #[trigger] mv[k] == (m.entries@[k].0@, node_view(
                            m.entries@[k].1,
                        )),
                    empty@ == Seq::<char>::empty(),
                    i <= n,
                    out@ == base + doc_pairs(mv, i as int),
                decreases n - i,
            {
                print_pair(&mut out, m.entries[i].0.as_str(), &m.entries[i].1, &empty, true);
                i = i + 1;
                assert(out@ =~= base + doc_pairs(mv, i as int));
            }
        },
        _ => {},
    }
    let ghost before_tail = out@;
    let anns = &doc.root.annotations;
    let n = anns.len();
    let has = match &doc.root.value {
        CsonValue::Object(m) => m.entries.len() > 0,
        _ => false,
    };
    proof {
        if let CsonValue::Object(m) = &doc.root.value {
            lemma_entries_view(m.entries@);
        }
        assert(has == has_pairs(doc@.root.value));
    }
    if n > 0 && has {
        push_char(&mut out, '[');
        push_char(&mut out, ']');
        push_char(&mut out, '\n');
    }
    let ghost base = out@;
    let ghost av = anns_view(anns@);
    let mut i: usize = 0;
    while i < n
        invariant
            n == anns.len(),
            av == anns_view(anns@),
            i <= n,
            out@ == base + root_anns_text(av.take(i as int)),
        decreases n - i,
    {
        proof {
            lemma_take_step(av, i as int);
        }
        print_annotation(&mut out, &anns[i]);
        push_char(&mut out, '\n');
        i = i + 1;
        assert(out@ =~= base + root_anns_text(av.take(i as int)));
    }
    assert(av.take(n as int) =~= av);
    assert(out@ =~= before_tail + doc_tail(doc@));
    assert(out@ =~= printed_doc(doc@));
    out
}

/// Print a single node's value and metadata (without a key).
pub fn print_node(node: &CsonNode) -> (r: String)
    ensures
        r@ == printed_node(node@, Seq::empty()),
{
    let mut out = String::new();
    let ind = String::new();
    print_node_into(&mut out, node, &ind);
    assert(out@ =~= printed_node(node@, Seq::empty()));
    out
}

impl CsonDocument {
    /// Print this document as CSON. See [`print_document`].
    pub fn print(&self) -> (r: String)
        ensures
            r@ == printed_doc(self@),
    {
        print_document(self)
    }
}

impl CsonNode {
    /// Print this node's value and metadata (no key). See [`print_node`].
    pub fn print(&self) -> (r: String)
        ensures
            r@ == printed_node(self@, Seq::empty()),
    {
        print_node(self)
    }
}

} // verus!
