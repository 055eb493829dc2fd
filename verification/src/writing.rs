//! What the printer writes, stated without its own definitions: how text is
//! quoted, and which keys are written bare.
use vstd::prelude::*;

use crate::grammar::trim;
use crate::model::{SAnnotation, SDocument, SNode, SValue};
use crate::print::{
    anns_text, bare_prop_key, doc_pairs, printed_doc, printed_pair, root_anns_text, escape, escape_all, items_text, key_breaker, pairs_text,
    printed_annotation, printed_key, printed_node, printed_prop_key, printed_value, props_text,
    quoted, safe_bare_key,
};

verus! {

/// Text that stands inside quotes as it is: no quote, backslash, newline,
/// tab or carriage return.
pub open spec fn verbatim(t: Seq<char>) -> bool {
    forall|i: int|
        0 <= i < t.len() ==> #[trigger] t[i] != '"' && t[i] != '\\' && t[i] != '\n' && t[i]
            != '\t' && t[i] != '\r'
}

proof fn lemma_escape_all_concat(x: Seq<char>, y: Seq<char>)
    ensures
        escape_all(x + y) == escape_all(x) + escape_all(y),
    decreases y.len(),
{
    if y.len() == 0 {
        assert(x + y =~= x);
        assert(escape_all(x) + escape_all(y) =~= escape_all(x));
    } else {
        lemma_escape_all_concat(x, y.drop_last());
        assert((x + y).drop_last() =~= x + y.drop_last());
        assert((x + y).last() == y.last());
        assert(escape_all(x) + escape_all(y) =~= escape_all(x) + escape_all(y.drop_last())
            + escape(y.last()));
    }
}

proof fn lemma_escape_all_verbatim(t: Seq<char>)
    requires
        verbatim(t),
    ensures
        escape_all(t) == t,
    decreases t.len(),
{
    if t.len() > 0 {
        let d = t.drop_last();
        assert forall|i: int| 0 <= i < d.len() implies #[trigger] d[i] != '"' && d[i] != '\\'
            && d[i] != '\n' && d[i] != '\t' && d[i] != '\r' by {
            assert(d[i] == t[i]);
        }
        lemma_escape_all_verbatim(d);
        assert(t.last() == t[t.len() - 1]);
        assert(d.push(t.last()) =~= t);
    }
}

/// Quoting writes text as it is between two quotes, but for a quote, a
/// backslash, a newline, a tab and a carriage return, which it writes as a
/// backslash followed by `"`, `\`, `n`, `t` and `r`.
pub proof fn law_quote(a: Seq<char>, c: char, b: Seq<char>)
    requires
        verbatim(a),
        verbatim(b),
    ensures
        quoted(a) == seq!['"'] + a + seq!['"'],
        quoted(a + seq![c] + b) == seq!['"'] + a + (if c == '"' {
            seq!['\\', '"']
        } else if c == '\\' {
            seq!['\\', '\\']
        } else if c == '\n' {
            seq!['\\', 'n']
        } else if c == '\t' {
            seq!['\\', 't']
        } else if c == '\r' {
            seq!['\\', 'r']
        } else {
            seq![c]
        }) + b + seq!['"'],
{
    lemma_escape_all_verbatim(a);
    lemma_escape_all_verbatim(b);
    lemma_escape_all_concat(a + seq![c], b);
    lemma_escape_all_concat(a, seq![c]);
    assert(seq![c].drop_last() =~= Seq::<char>::empty());
    assert(seq![c].last() == c);
    assert(escape_all(Seq::<char>::empty()) == Seq::<char>::empty());
    assert(escape_all(seq![c]) =~= escape(c));
}

/// The keys the printer writes bare: not empty, with no blank at either end,
/// holding none of `:`, newline, `"`, `#`, `,`, `{`, `}`, `[` and `]`, and
/// starting neither with `@`, `~`, `$` or `(` nor with `//`. Such a key is
/// written as it is; a stored semantic key `~t` as `~` and `t` quoted; any
/// other key quoted.
pub proof fn law_printed_keys(k: Seq<char>)
    ensures
        safe_bare_key(k) <==> (k.len() > 0 && trim(k) == k && (forall|i: int|
            0 <= i < k.len() ==> #[trigger] k[i] != ':' && k[i] != '\n' && k[i] != '"' && k[i]
                != '#' && k[i] != ',' && k[i] != '{' && k[i] != '}' && k[i] != '[' && k[i] != ']')
            && k[0] != '@' && k[0] != '~' && k[0] != '$' && k[0] != '(' && !(k.len() >= 2 && k[0]
            == '/' && k[1] == '/')),
        k.len() > 0 && k[0] == '~' ==> printed_key(k) == seq!['~'] + quoted(k.skip(1)),
        !(k.len() > 0 && k[0] == '~') && safe_bare_key(k) ==> printed_key(k) == k,
        !(k.len() > 0 && k[0] == '~') && !safe_bare_key(k) ==> printed_key(k) == quoted(k),
{
    assert((forall|i: int| 0 <= i < k.len() ==> !#[trigger] key_breaker(k[i])) <==> (forall|i: int|
        0 <= i < k.len() ==> #[trigger] k[i] != ':' && k[i] != '\n' && k[i] != '"' && k[i] != '#'
            && k[i] != ',' && k[i] != '{' && k[i] != '}' && k[i] != '[' && k[i] != ']')) by {
        if forall|i: int| 0 <= i < k.len() ==> !#[trigger] key_breaker(k[i]) {
            assert forall|i: int| 0 <= i < k.len() implies #[trigger] k[i] != ':' && k[i] != '\n'
                && k[i] != '"' && k[i] != '#' && k[i] != ',' && k[i] != '{' && k[i] != '}' && k[i]
                != '[' && k[i] != ']' by {
                assert(!key_breaker(k[i]));
            }
        }
    }
}

/// How the printer writes values: `true`, `false` and `null` as those words,
/// a number as the literal that was read, a string quoted,
/// `@synthesize("t")` with its text quoted, an empty array as `[]` and an
/// empty object as `{}`.
pub proof fn law_printed_scalars(t: Seq<char>, ind: Seq<char>)
    ensures
        printed_value(SValue::Boolean(true), ind) == "true"@,
        printed_value(SValue::Boolean(false), ind) == "false"@,
        printed_value(SValue::Null, ind) == "null"@,
        printed_value(SValue::Number(t), ind) == t,
        printed_value(SValue::Str(t), ind) == quoted(t),
        printed_value(SValue::Synthesize(t), ind) == "@synthesize("@ + quoted(t) + ")"@,
        printed_value(SValue::Array(Seq::empty()), ind) == "[]"@,
        printed_value(SValue::Object(Seq::empty()), ind) == "{}"@,
{
    reveal_strlit("true");
    reveal_strlit("false");
    reveal_strlit("null");
    reveal_strlit("@synthesize(");
    reveal_strlit(")");
    reveal_strlit("[]");
    reveal_strlit("{}");
    assert(printed_value(SValue::Boolean(true), ind) =~= "true"@);
    assert(printed_value(SValue::Boolean(false), ind) =~= "false"@);
    assert(printed_value(SValue::Null, ind) =~= "null"@);
    assert(printed_value(SValue::Synthesize(t), ind) =~= "@synthesize("@ + quoted(t) + ")"@);
    assert(printed_value(SValue::Array(Seq::empty()), ind) =~= "[]"@);
    assert(printed_value(SValue::Object(Seq::empty()), ind) =~= "{}"@);
}

/// A node is written as its value, then ` ~` and its confidence when it has
/// one, then each annotation after a blank, in order; an annotation as `@`,
/// its name, its arguments in parentheses when it has any, and its
/// properties as ` { k: "v", … }` when it has any.
pub proof fn law_printed_node(n: SNode, ind: Seq<char>, a: SAnnotation)
    ensures
        n.confidence is None && n.annotations.len() == 0 ==> printed_node(n, ind) == printed_value(
            n.value,
            ind,
        ),
        n.confidence matches Some(c) ==> (n.annotations.len() == 0 ==> printed_node(n, ind)
            == printed_value(n.value, ind) + seq![' ', '~'] + c),
        printed_node(SNode { annotations: n.annotations.push(a), ..n }, ind) == printed_node(n, ind)
            + seq![' '] + printed_annotation(a),
        printed_annotation(a) == seq!['@'] + a.name + (match a.args {
            Some(x) => seq!['('] + x + seq![')'],
            None => Seq::empty(),
        }) + (if a.properties.len() == 0 {
            Seq::empty()
        } else {
            seq![' ', '{', ' '] + props_text(a.properties) + seq![' ', '}']
        }),
{
    let m = SNode { annotations: n.annotations.push(a), ..n };
    assert(m.annotations.drop_last() =~= n.annotations);
    if n.annotations.len() == 0 {
        assert(anns_text(n.annotations) == Seq::<char>::empty());
    }
}

/// Annotation properties are written `k: "v"`, separated by `, `, the key
/// bare when the reader takes it back so and quoted otherwise, the value
/// always quoted.
pub proof fn law_printed_properties(p: Seq<(Seq<char>, Seq<char>)>, k: Seq<char>, v: Seq<char>)
    ensures
        props_text(seq![(k, v)]) == printed_prop_key(k) + seq![':', ' '] + quoted(v),
        p.len() > 0 ==> props_text(p.push((k, v))) == props_text(p) + seq![',', ' ']
            + printed_prop_key(k) + seq![':', ' '] + quoted(v),
        bare_prop_key(k) ==> printed_prop_key(k) == k,
        !bare_prop_key(k) ==> printed_prop_key(k) == quoted(k),
{
    assert(p.push((k, v)).drop_last() =~= p);
}

/// Array elements are written between `[` and `]`, separated by `, `.
pub proof fn law_printed_array(items: Seq<SNode>, x: SNode, ind: Seq<char>)
    ensures
        printed_value(SValue::Array(seq![x]), ind) == seq!['['] + printed_node(x, ind) + seq![']'],
        items.len() > 0 ==> items_text(items.push(x), ind) == items_text(items, ind) + seq![
            ',',
            ' ',
        ] + printed_node(x, ind),
        items.len() > 0 ==> printed_value(SValue::Array(items), ind) == seq!['['] + items_text(
            items,
            ind,
        ) + seq![']'],
{
    assert(items.push(x).drop_last() =~= items);
    assert(seq![x][0] == x);
}

/// A non-empty object is written as `{`, a newline, then each pair on a line
/// of its own two blanks deeper (`key: node`, then `,` but after the last
/// pair), and `}` at the object's own indentation.
pub proof fn law_printed_object(m: Seq<(Seq<char>, SNode)>, ind: Seq<char>, i: int)
    requires
        m.len() > 0,
        0 <= i < m.len(),
    ensures
        printed_value(SValue::Object(m), ind) == seq!['{', '\n'] + pairs_text(
            m,
            ind + seq![' ', ' '],
            m.len() as int,
        ) + ind + seq!['}'],
        pairs_text(m, ind, i + 1) == pairs_text(m, ind, i) + ind + printed_key(m[i].0) + seq![
            ':',
            ' ',
        ] + printed_node(m[i].1, ind) + (if i + 1 == m.len() {
            seq!['\n']
        } else {
            seq![',', '\n']
        }),
        pairs_text(m, ind, 0) == Seq::<char>::empty(),
{
    let tr: Seq<char> = if i + 1 == m.len() {
        seq!['\n']
    } else {
        seq![',', '\n']
    };
    assert(pairs_text(m, ind, i + 1) == pairs_text(m, ind, i) + printed_pair(
        m[i].0,
        m[i].1,
        ind,
        tr,
    ));
    assert(pairs_text(m, ind, i + 1) =~= pairs_text(m, ind, i) + ind + printed_key(m[i].0)
        + seq![':', ' '] + printed_node(m[i].1, ind) + tr);
}

/// A document is written as an `@cson { version: "v" }` line when its
/// version is not `1.0`, then each pair of its root on a line of its own,
/// then, when the root has annotations, a `[]` line if there were pairs and
/// each annotation on a line of its own.
pub proof fn law_printed_document(d: SDocument, m: Seq<(Seq<char>, SNode)>)
    requires
        d.root.value == SValue::Object(m),
    ensures
        printed_doc(d) == (if d.version != "1.0"@ {
            "@cson { version: "@ + quoted(d.version) + " }\n"@
        } else {
            Seq::empty()
        }) + doc_pairs(m, m.len() as int) + (if d.root.annotations.len() > 0 && m.len() > 0 {
            "[]\n"@
        } else {
            Seq::empty()
        }) + root_anns_text(d.root.annotations),
        m.len() > 0 ==> doc_pairs(m, m.len() as int) == doc_pairs(m, m.len() - 1) + printed_key(
            m.last().0,
        ) + seq![':', ' '] + printed_node(m.last().1, Seq::empty()) + seq!['\n'],
        d.root.annotations.len() > 0 ==> root_anns_text(d.root.annotations) == root_anns_text(
            d.root.annotations.drop_last(),
        ) + printed_annotation(d.root.annotations.last()) + seq!['\n'],
{
    reveal_strlit("1.0");
    reveal_strlit("@cson { version: ");
    reveal_strlit(" }\n");
    reveal_strlit("[]\n");
    assert("1.0"@ =~= seq!['1', '.', '0']);
    assert("@cson { version: "@ =~= seq!['@', 'c', 's', 'o', 'n', ' ', '{', ' ', 'v', 'e', 'r', 's', 'i', 'o', 'n', ':', ' ']);
    assert(" }\n"@ =~= seq![' ', '}', '\n']);
    assert("[]\n"@ =~= seq!['[', ']', '\n']);
    if m.len() > 0 {
        assert(doc_pairs(m, m.len() as int) =~= doc_pairs(m, m.len() - 1) + printed_key(
            m.last().0,
        ) + seq![':', ' '] + printed_node(m.last().1, Seq::empty()) + seq!['\n']);
    }
    if d.root.annotations.len() > 0 {
        assert(root_anns_text(d.root.annotations) == root_anns_text(
            d.root.annotations.drop_last(),
        ) + printed_annotation(d.root.annotations.last()) + seq!['\n']);
    }
}

} // verus!
