//! What the parser reads from a CSON text, as functions of the input and a
//! position in it.
//!
//! Each function takes the whole input `s` and a position `p`, and gives the
//! value read there with the position just after it, or a message with the
//! position at which reading stopped. Positions count characters.
use vstd::prelude::*;

use crate::model::{SAnnotation, SDocument, SKey, SNode, SValue, assoc_get, assoc_insert, has_key, key_index, key_text};
use crate::number::{is_float_literal, in_unit_interval};
use crate::text::{is_ws, alnum};

verus! {

pub open spec fn at(s: Seq<char>, p: int, c: char) -> bool {
    0 <= p < s.len() && s[p] == c
}

pub open spec fn starts_at(s: Seq<char>, p: int, w: Seq<char>) -> bool {
    0 <= p && p + w.len() <= s.len() && s.subrange(p, p + w.len()) == w
}

/// Input left from `q` on, as a measure.
pub open spec fn rem(s: Seq<char>, q: int) -> nat {
    if q < s.len() {
        (s.len() - q) as nat
    } else {
        0
    }
}

/// Where a bare value ends: at a newline, `,`, `}`, `]` or `~`; at a blank
/// followed (after blanks) by an annotation or a comment; at a comment.
pub open spec fn bare_stop(s: Seq<char>, i: int) -> bool {
    let c = s[i];
    ||| c == '\n' || c == ',' || c == '}' || c == ']' || c == '~'
    ||| (c == ' ' || c == '\t') && ({
        let j = ws_end(s, i);
        at(s, j, '@') || at(s, j, '#') || (at(s, j, '/') && at(s, j + 1, '/'))
    })
    ||| c == '#' || (c == '/' && at(s, i + 1, '/'))
}

/// The characters at which a scan stops.
pub enum Stop {
    Char(char),
    /// `,` or `}`: the end of an unquoted annotation property value.
    PropValueEnd,
    /// A blank, `,`, `}` or `]`: the end of a confidence.
    ConfidenceEnd,
    /// Neither alphanumeric nor `_`: the end of an annotation name.
    NameEnd,
    BareEnd,
}

pub open spec fn stops(k: Stop, s: Seq<char>, i: int) -> bool {
    match k {
        Stop::Char(c) => s[i] == c,
        Stop::PropValueEnd => s[i] == ',' || s[i] == '}',
        Stop::ConfidenceEnd => is_ws(s[i]) || s[i] == ',' || s[i] == '}' || s[i] == ']',
        Stop::NameEnd => !(alnum(s[i]) || s[i] == '_'),
        Stop::BareEnd => bare_stop(s, i),
    }
}

/// The first position from `p` on where the scan stops, or the end of input.
pub open spec fn scan(s: Seq<char>, p: int, k: Stop) -> int
    decreases rem(s, p),
{
    if 0 <= p < s.len() && !stops(k, s, p) {
        scan(s, p + 1, k)
    } else {
        p
    }
}

/// The first position from `p` on that is not a blank (as `trim_start` sees it).
pub open spec fn ws_end(s: Seq<char>, p: int) -> int
    decreases rem(s, p),
{
    if 0 <= p < s.len() && is_ws(s[p]) {
        ws_end(s, p + 1)
    } else {
        p
    }
}

/// The position after the blanks and comments (`#` or `//` up to the end of
/// the line) that start at `p`.
pub open spec fn skip_ws(s: Seq<char>, p: int) -> int
    decreases rem(s, p), 0int,
{
    if 0 <= p < s.len() {
        if s[p] == '#' || (s[p] == '/' && at(s, p + 1, '/')) {
            skip_comment(s, p + 1)
        } else if is_ws(s[p]) {
            skip_ws(s, p + 1)
        } else {
            p
        }
    } else {
        p
    }
}

pub open spec fn skip_comment(s: Seq<char>, p: int) -> int
    decreases rem(s, p), 1int,
{
    if 0 <= p < s.len() && s[p] != '\n' {
        skip_comment(s, p + 1)
    } else {
        skip_ws(s, p)
    }
}

pub open spec fn trim_start(t: Seq<char>) -> Seq<char>
    decreases t.len(),
{
    if t.len() > 0 && is_ws(t[0]) {
        trim_start(t.drop_first())
    } else {
        t
    }
}

pub open spec fn trim_end(t: Seq<char>) -> Seq<char>
    decreases t.len(),
{
    if t.len() > 0 && is_ws(t.last()) {
        trim_end(t.drop_last())
    } else {
        t
    }
}

/// `str::trim`.
pub open spec fn trim(t: Seq<char>) -> Seq<char> {
    trim_end(trim_start(t))
}

pub open spec fn trim_quotes_start(t: Seq<char>) -> Seq<char>
    decreases t.len(),
{
    if t.len() > 0 && t[0] == '"' {
        trim_quotes_start(t.drop_first())
    } else {
        t
    }
}

pub open spec fn trim_quotes_end(t: Seq<char>) -> Seq<char>
    decreases t.len(),
{
    if t.len() > 0 && t.last() == '"' {
        trim_quotes_end(t.drop_last())
    } else {
        t
    }
}

/// `str::trim_matches('"')`.
pub open spec fn trim_quotes(t: Seq<char>) -> Seq<char> {
    trim_quotes_end(trim_quotes_start(t))
}

/// The character an escape `\c` stands for.
pub open spec fn unescape(c: char) -> char {
    if c == 'n' {
        '\n'
    } else if c == 'r' {
        '\r'
    } else if c == 't' {
        '\t'
    } else {
        c
    }
}

/// The rest of a quoted string from `q` (after the opening quote), its
/// characters so far being `acc`: the text and the position after the closing
/// quote, or `None` when the input ends first.
pub open spec fn qbody(s: Seq<char>, q: int, acc: Seq<char>) -> Option<(Seq<char>, int)>
    decreases rem(s, q),
{
    if 0 <= q < s.len() {
        if s[q] == '\\' {
            if q + 1 < s.len() {
                qbody(s, q + 2, acc.push(unescape(s[q + 1])))
            } else {
                None
            }
        } else if s[q] == '"' {
            Some((acc, q + 1))
        } else {
            qbody(s, q + 1, acc.push(s[q]))
        }
    } else {
        None
    }
}

/// A quoted string whose opening quote is at `p`.
pub open spec fn qstr(s: Seq<char>, p: int) -> Result<(Seq<char>, int), (Seq<char>, int)> {
    match qbody(s, p + 1, Seq::empty()) {
        Some((t, q)) => Ok((t, q)),
        None => Err(("Unclosed string"@, s.len() as int)),
    }
}

/// Annotation properties from `q` on (after `{`), those read so far being `acc`.
pub open spec fn props_at(s: Seq<char>, q: int, acc: Seq<(Seq<char>, Seq<char>)>) -> Result<
    (Seq<(Seq<char>, Seq<char>)>, int),
    (Seq<char>, int),
>
    decreases rem(s, q),
{
    let q1 = skip_ws(s, q);
    if q1 >= s.len() || q1 < 0 {
        Err(("Unclosed annotation properties"@, q1))
    } else if s[q1] == '}' {
        Ok((acc, q1 + 1))
    } else {
        let c = scan(s, q1, Stop::Char(':'));
        if c >= s.len() {
            Err(("Missing colon in annotation property"@, q1))
        } else {
            let k = trim(s.subrange(q1, c));
            let q3 = skip_ws(s, c + 1);
            let vr = if at(s, q3, '"') {
                qstr(s, q3)
            } else {
                let ve = scan(s, q3, Stop::PropValueEnd);
                Ok((trim(s.subrange(q3, ve)), ve))
            };
            match vr {
                Err(e) => Err(e),
                Ok((v, q4)) => {
                    let q5 = skip_ws(s, q4);
                    let q6 = if at(s, q5, ',') {
                        q5 + 1
                    } else {
                        q5
                    };
                    proof {
                        lemma_skip_ws(s, q);
                        lemma_scan(s, q1, Stop::Char(':'));
                        lemma_skip_ws(s, c + 1);
                        lemma_qstr(s, q3);
                        lemma_scan(s, q3, Stop::PropValueEnd);
                        lemma_skip_ws(s, q4);
                    }
                    props_at(s, q6, assoc_insert(acc, k, v))
                },
            }
        }
    }
}

/// The annotation that continues at `q` (after its name and blanks) with its
/// properties, if any.
pub open spec fn ann_props(s: Seq<char>, q: int, name: Seq<char>, args: Option<Seq<char>>) -> Result<
    (SAnnotation, int),
    (Seq<char>, int),
> {
    if at(s, q, '{') {
        match props_at(s, q + 1, Seq::empty()) {
            Err(e) => Err(e),
            Ok((props, q2)) => Ok((SAnnotation { name, args, properties: props }, q2)),
        }
    } else {
        Ok((SAnnotation { name, args, properties: Seq::empty() }, q))
    }
}

/// The annotation whose `@` is at `p`.
pub open spec fn ann_at(s: Seq<char>, p: int) -> Result<(SAnnotation, int), (Seq<char>, int)> {
    let ne = scan(s, p + 1, Stop::NameEnd);
    let name = s.subrange(p + 1, ne);
    let q1 = skip_ws(s, ne);
    if at(s, q1, '(') {
        let e = scan(s, q1 + 1, Stop::Char(')'));
        if e >= s.len() {
            Err(("Unclosed annotation args"@, q1 + 1))
        } else {
            ann_props(s, skip_ws(s, e + 1), name, Some(s.subrange(q1 + 1, e)))
        }
    } else {
        ann_props(s, skip_ws(s, q1), name, None)
    }
}

/// A confidence `~<number>` at `p`: `None` (reading nothing) when there is none.
pub open spec fn conf_at(s: Seq<char>, p: int) -> Result<(Option<Seq<char>>, int), (Seq<char>, int)> {
    if !at(s, p, '~') || at(s, ws_end(s, p + 1), '"') {
        Ok((None, p))
    } else {
        let e = scan(s, p + 1, Stop::ConfidenceEnd);
        let t = s.subrange(p + 1, e);
        if !is_float_literal(t) {
            Ok((None, p))
        } else if !in_unit_interval(t) {
            Err(("Confidence "@ + t + " outside [0.0, 1.0]"@, e))
        } else {
            Ok((Some(t), e))
        }
    }
}

/// `true`, `false` or `null` at `p`, not followed by an alphanumeric character.
pub open spec fn keyword_at(s: Seq<char>, p: int, w: Seq<char>) -> bool {
    starts_at(s, p, w) && (p + w.len() == s.len() || !alnum(s[p + w.len()]))
}

/// The value of a bare token.
pub open spec fn bare_value(raw: Seq<char>) -> SValue {
    if is_float_literal(raw) {
        SValue::Number(raw)
    } else if raw == "true"@ {
        SValue::Boolean(true)
    } else if raw == "false"@ {
        SValue::Boolean(false)
    } else if raw == "null"@ {
        SValue::Null
    } else {
        SValue::Str(raw)
    }
}

pub open spec fn args_text(a: Option<Seq<char>>) -> Seq<char> {
    match a {
        Some(t) => t,
        None => Seq::empty(),
    }
}

/// Annotations that trail an array element, from `q` on.
pub open spec fn trail_anns(s: Seq<char>, q: int, acc: Seq<SAnnotation>) -> Result<
    (Seq<SAnnotation>, int),
    (Seq<char>, int),
>
    decreases rem(s, q),
{
    let q1 = skip_ws(s, q);
    if at(s, q1, '@') && !starts_at(s, q1, "@synthesize"@) {
        match ann_at(s, q1) {
            Err(e) => Err(e),
            Ok((a, q2)) => {
                proof {
                    lemma_skip_ws(s, q);
                    lemma_ann_at(s, q1);
                }
                trail_anns(s, q2, acc.push(a))
            },
        }
    } else {
        Ok((acc, q))
    }
}

/// The annotations and the confidence that follow a value in a pair, from `q`
/// on; `conf` is the confidence read with the value.
pub open spec fn meta_at(s: Seq<char>, q: int, conf: Option<Seq<char>>, anns: Seq<SAnnotation>) -> Result<
    ((Option<Seq<char>>, Seq<SAnnotation>), int),
    (Seq<char>, int),
>
    decreases rem(s, q),
{
    let q1 = skip_ws(s, q);
    proof {
        lemma_skip_ws(s, q);
    }
    if q1 >= s.len() || q1 < 0 {
        Ok(((conf, anns), q1))
    } else if s[q1] == '@' {
        match ann_at(s, q1) {
            Err(e) => Err(e),
            Ok((a, q2)) => {
                proof {
                    lemma_ann_at(s, q1);
                }
                meta_at(s, q2, conf, anns.push(a))
            },
        }
    } else {
        match conf_at(s, q1) {
            Err(e) => Err(e),
            Ok((None, _)) => Ok(((conf, anns), q1)),
            Ok((Some(c), q2)) => {
                proof {
                    lemma_conf_at(s, q1);
                }
                if conf is Some {
                    Err(("Duplicate confidence on a node"@, q2))
                } else {
                    meta_at(s, q2, Some(c), anns)
                }
            },
        }
    }
}

/// A value at `p` (after blanks), with the confidence that follows it.
pub open spec fn val_at(s: Seq<char>, p: int) -> Result<((SValue, Option<Seq<char>>), int), (Seq<char>, int)>
    decreases rem(s, p), 0int,
{
    let q0 = skip_ws(s, p);
    proof {
        lemma_skip_ws(s, p);
    }
    if q0 >= s.len() || q0 < 0 {
        Err(("Unexpected end of input when parsing value"@, q0))
    } else {
        let r = if s[q0] == '@' {
            match ann_at(s, q0) {
                Err(e) => Err(e),
                Ok((a, q)) => if a.name == "synthesize"@ {
                    Ok((SValue::Synthesize(trim_quotes(args_text(a.args))), q))
                } else {
                    Err(("Only @synthesize is supported as a value annotation"@, q))
                },
            }
        } else if s[q0] == '"' {
            match qstr(s, q0) {
                Err(e) => Err(e),
                Ok((t, q)) => Ok((SValue::Str(t), q)),
            }
        } else if keyword_at(s, q0, "true"@) {
            Ok((SValue::Boolean(true), q0 + 4))
        } else if keyword_at(s, q0, "false"@) {
            Ok((SValue::Boolean(false), q0 + 5))
        } else if keyword_at(s, q0, "null"@) {
            Ok((SValue::Null, q0 + 4))
        } else if s[q0] == '{' {
            obj_at(s, q0 + 1, Seq::empty())
        } else if s[q0] == '[' {
            arr_at(s, q0 + 1, Seq::empty())
        } else {
            let e = scan(s, q0, Stop::BareEnd);
            Ok((bare_value(trim(s.subrange(q0, e))), e))
        };
        match r {
            Err(e) => Err(e),
            Ok((v, q)) => {
                let q2 = skip_ws(s, q);
                match conf_at(s, q2) {
                    Err(e) => Err(e),
                    Ok((c, q3)) => Ok(((v, c), q3)),
                }
            },
        }
    }
}

/// The pairs of an object from `q` on (after `{`), those read so far being `acc`.
/// A pair that reads nothing (an annotation, section or `]` where a key should
/// be) is an error.
pub open spec fn obj_at(s: Seq<char>, q: int, acc: Seq<(Seq<char>, SNode)>) -> Result<(SValue, int), (Seq<char>, int)>
    decreases rem(s, q), 1int,
{
    let q1 = skip_ws(s, q);
    proof {
        lemma_skip_ws(s, q);
    }
    if q1 >= s.len() || q1 < 0 {
        Err(("Unclosed object"@, q1))
    } else if s[q1] == '}' {
        Ok((SValue::Object(acc), q1 + 1))
    } else {
        match kv_at(s, q1) {
            Err(e) => Err(e),
            Ok((None, _)) => Err(("Unexpected character in object"@, q1)),
            Ok((Some((k, n)), q2)) => {
                let kt = key_text(k);
                if q2 <= q1 {
                    Err(("Unexpected character in object"@, q1))
                } else if has_key(acc, kt) {
                    Err(("Duplicate key: "@ + kt, q2))
                } else {
                    let q3 = skip_ws(s, q2);
                    let q4 = if at(s, q3, ',') {
                        q3 + 1
                    } else {
                        q3
                    };
                    proof {
                        lemma_skip_ws(s, q2);
                    }
                    obj_at(s, q4, acc.push((kt, n)))
                }
            },
        }
    }
}

/// The elements of an array from `q` on (after `[`), those read so far being
/// `acc`. An element that reads nothing is an error, and so is an element
/// followed by anything but `,` or `]`.
pub open spec fn arr_at(s: Seq<char>, q: int, acc: Seq<SNode>) -> Result<(SValue, int), (Seq<char>, int)>
    decreases rem(s, q), 1int,
{
    let q1 = skip_ws(s, q);
    proof {
        lemma_skip_ws(s, q);
    }
    if q1 >= s.len() || q1 < 0 {
        Err(("Unclosed array"@, q1))
    } else if s[q1] == ']' {
        Ok((SValue::Array(acc), q1 + 1))
    } else {
        match val_at(s, q1) {
            Err(e) => Err(e),
            Ok(((v, c), q2)) => match trail_anns(s, q2, Seq::empty()) {
                Err(e) => Err(e),
                Ok((anns, q3)) => {
                    let q4 = skip_ws(s, q3);
                    let q5 = if at(s, q4, ',') {
                        q4 + 1
                    } else {
                        q4
                    };
                    if q5 <= q1 {
                        Err(("Unexpected character in array"@, q1))
                    } else if q5 == q4 && 0 <= q4 < s.len() && s[q4] != ']' {
                        Err(("Expected ',' or ']' in array"@, q4))
                    } else {
                        arr_at(s, q5, acc.push(SNode { value: v, confidence: c, annotations: anns }))
                    }
                },
            },
        }
    }
}

/// The key of a pair at `q1` (after an optional `~`): a quoted string, or the
/// trimmed text up to the next `:`.
pub open spec fn key_at(s: Seq<char>, q1: int) -> Result<(Seq<char>, int), (Seq<char>, int)> {
    if at(s, q1, '"') {
        qstr(s, q1)
    } else {
        let c = scan(s, q1, Stop::Char(':'));
        if c >= s.len() {
            Err(("Missing colon in kv pair"@, q1))
        } else {
            Ok((trim(s.subrange(q1, c)), c))
        }
    }
}

/// A key/value pair at `p` (after blanks), or `None` (reading only the blanks)
/// when the input ends or a section, annotation or closing bracket comes first.
pub open spec fn kv_at(s: Seq<char>, p: int) -> Result<(Option<(SKey, SNode)>, int), (Seq<char>, int)>
    decreases rem(s, p), 0int,
{
    let q0 = skip_ws(s, p);
    proof {
        lemma_skip_ws(s, p);
    }
    if q0 >= s.len() || q0 < 0 {
        Ok((None, q0))
    } else if s[q0] == '[' || s[q0] == '@' || s[q0] == '}' || s[q0] == ']' {
        Ok((None, q0))
    } else {
        let sem = s[q0] == '~';
        let q1 = if sem {
            q0 + 1
        } else {
            q0
        };
        match key_at(s, q1) {
            Err(e) => Err(e),
            Ok((kt, q2)) => {
                let key = if sem {
                    SKey::Semantic(kt)
                } else {
                    SKey::Exact(kt)
                };
                let q3 = skip_ws(s, q2);
                if !at(s, q3, ':') {
                    Err(("Expected ':' after key"@, q3))
                } else {
                    proof {
                        lemma_key_at(s, q1);
                        lemma_skip_ws(s, q2);
                        lemma_skip_ws(s, q3 + 1);
                    }
                    match val_at(s, skip_ws(s, q3 + 1)) {
                        Err(e) => Err(e),
                        Ok(((v, c), q4)) => match meta_at(s, q4, c, Seq::empty()) {
                            Err(e) => Err(e),
                            Ok(((c2, anns), q5)) => Ok(
                                (Some((key, SNode { value: v, confidence: c2, annotations: anns })), q5),
                            ),
                        },
                    }
                }
            },
        }
    }
}

/// State of the document reader: the root pairs, the open section, the
/// annotations waiting for the next pair, and the declared version.
pub struct DocState {
    pub root: Seq<(Seq<char>, SNode)>,
    pub section: Option<Seq<char>>,
    pub pending: Seq<SAnnotation>,
    pub version: Seq<char>,
}

pub open spec fn doc_start() -> DocState {
    DocState { root: Seq::empty(), section: None, pending: Seq::empty(), version: "1.0"@ }
}

pub open spec fn doc_finish(st: DocState) -> SDocument {
    SDocument {
        version: st.version,
        root: SNode { value: SValue::Object(st.root), confidence: None, annotations: st.pending },
    }
}

/// The version an `@cson` annotation declares: its `version` property, else its
/// argument without surrounding quotes, else the current one.
pub open spec fn cson_version(a: SAnnotation, v: Seq<char>) -> Seq<char> {
    match assoc_get(a.properties, "version"@) {
        Some(x) => x,
        None => match a.args {
            Some(arg) => trim_quotes(arg),
            None => v,
        },
    }
}

pub open spec fn empty_object_node() -> SNode {
    SNode { value: SValue::Object(Seq::empty()), confidence: None, annotations: Seq::empty() }
}

/// The root pairs once `(kt, n)` is added under the open section `sec`, a
/// nested object of the root: it is created when missing. `Err` gives the key
/// that would be held twice: `kt` when the section already has it, `sec`
/// when the root holds `sec` with a value that is not an object.
pub open spec fn section_add(
    root: Seq<(Seq<char>, SNode)>,
    sec: Seq<char>,
    kt: Seq<char>,
    n: SNode,
) -> Result<Seq<(Seq<char>, SNode)>, Seq<char>> {
    let root1 = if has_key(root, sec) {
        root
    } else {
        root.push((sec, empty_object_node()))
    };
    let i = key_index(root1, sec);
    let sn = root1[i].1;
    match sn.value {
        SValue::Object(m) => if has_key(m, kt) {
            Err(kt)
        } else {
            Ok(
                root1.update(
                    i,
                    (sec, SNode { value: SValue::Object(m.push((kt, n))), ..sn }),
                ),
            )
        },
        _ => Err(sec),
    }
}

/// The document read from position `q` on, in state `st`. A `}` or `]` where
/// a pair should start is an error.
pub open spec fn doc_at(s: Seq<char>, q: int, st: DocState) -> Result<(SDocument, int), (Seq<char>, int)>
    decreases rem(s, q),
{
    if q >= s.len() || q < 0 {
        Ok((doc_finish(st), q))
    } else {
        let q1 = skip_ws(s, q);
        proof {
            lemma_skip_ws(s, q);
        }
        if q1 >= s.len() {
            Ok((doc_finish(st), q1))
        } else if s[q1] == '@' {
            match ann_at(s, q1) {
                Err(e) => Err(e),
                Ok((a, q2)) => {
                    proof {
                        lemma_ann_at(s, q1);
                    }
                    if a.name == "cson"@ {
                        doc_at(s, q2, DocState { version: cson_version(a, st.version), ..st })
                    } else {
                        doc_at(s, q2, DocState { pending: st.pending.push(a), ..st })
                    }
                },
            }
        } else if s[q1] == '[' {
            let e = scan(s, q1 + 1, Stop::Char(']'));
            proof {
                lemma_scan(s, q1 + 1, Stop::Char(']'));
            }
            if e >= s.len() {
                Err(("Unclosed section"@, q1 + 1))
            } else {
                doc_at(s, e + 1, DocState { section: Some(trim(s.subrange(q1 + 1, e))), ..st })
            }
        } else {
            match kv_at(s, q1) {
                Err(e) => Err(e),
                Ok((None, q2)) => Err(("Unexpected character in document"@, q2)),
                Ok((Some((k, n)), q2)) => {
                    let n2 = SNode { annotations: n.annotations + st.pending, ..n };
                    let kt = key_text(k);
                    proof {
                        lemma_kv_progress(s, q1);
                    }
                    match st.section {
                        None => if has_key(st.root, kt) {
                            Err(("Duplicate key: "@ + kt, q2))
                        } else {
                            doc_at(
                                s,
                                q2,
                                DocState { root: st.root.push((kt, n2)), pending: Seq::empty(), ..st },
                            )
                        },
                        Some(sec) => match section_add(st.root, sec, kt, n2) {
                            Err(dup) => Err(("Duplicate key: "@ + dup, q2)),
                            Ok(root2) => doc_at(
                                s,
                                q2,
                                DocState { root: root2, pending: Seq::empty(), ..st },
                            ),
                        },
                    }
                },
            }
        }
    }
}

/// The document read from position `p` of `s`.
pub open spec fn parse_doc(s: Seq<char>, p: int) -> Result<(SDocument, int), (Seq<char>, int)> {
    doc_at(s, p, doc_start())
}

// ---------------------------------------------------------------------------
// Positions only move forward
// ---------------------------------------------------------------------------

pub proof fn lemma_scan(s: Seq<char>, p: int, k: Stop)
    requires
        0 <= p <= s.len(),
    ensures
        p <= scan(s, p, k) <= s.len(),
        scan(s, p, k) < s.len() ==> stops(k, s, scan(s, p, k)),
        forall|i: int| p <= i < scan(s, p, k) ==> !stops(k, s, i),
    decreases s.len() - p,
{
    if p < s.len() && !stops(k, s, p) {
        lemma_scan(s, p + 1, k);
    }
}

pub proof fn lemma_ws_end(s: Seq<char>, p: int)
    requires
        0 <= p <= s.len(),
    ensures
        p <= ws_end(s, p) <= s.len(),
        ws_end(s, p) < s.len() ==> !is_ws(s[ws_end(s, p)]),
        forall|i: int| p <= i < ws_end(s, p) ==> is_ws(s[i]),
    decreases s.len() - p,
{
    if p < s.len() && is_ws(s[p]) {
        lemma_ws_end(s, p + 1);
    }
}

pub proof fn lemma_skip_ws(s: Seq<char>, p: int)
    ensures
        0 <= p <= s.len() ==> p <= skip_ws(s, p) <= s.len(),
        !(0 <= p <= s.len()) ==> skip_ws(s, p) == p,
    decreases rem(s, p), 0int,
{
    if 0 <= p < s.len() {
        if s[p] == '#' || (s[p] == '/' && at(s, p + 1, '/')) {
            lemma_skip_comment(s, p + 1);
        } else if is_ws(s[p]) {
            lemma_skip_ws(s, p + 1);
        }
    }
}

pub proof fn lemma_skip_comment(s: Seq<char>, p: int)
    requires
        0 <= p <= s.len(),
    ensures
        p <= skip_comment(s, p) <= s.len(),
    decreases rem(s, p), 1int,
{
    if 0 <= p < s.len() && s[p] != '\n' {
        lemma_skip_comment(s, p + 1);
    } else {
        lemma_skip_ws(s, p);
    }
}

pub proof fn lemma_qbody(s: Seq<char>, q: int, acc: Seq<char>)
    requires
        0 <= q,
    ensures
        qbody(s, q, acc) matches Some((_, q2)) ==> q < q2 <= s.len(),
    decreases rem(s, q),
{
    if 0 <= q < s.len() {
        if s[q] == '\\' {
            if q + 1 < s.len() {
                lemma_qbody(s, q + 2, acc.push(unescape(s[q + 1])));
            }
        } else if s[q] != '"' {
            lemma_qbody(s, q + 1, acc.push(s[q]));
        }
    }
}

pub proof fn lemma_qstr(s: Seq<char>, p: int)
    requires
        0 <= p,
    ensures
        qstr(s, p) matches Ok((_, q)) ==> p + 1 < q <= s.len(),
{
    lemma_qbody(s, p + 1, Seq::empty());
}

pub proof fn lemma_props_at(s: Seq<char>, q: int, acc: Seq<(Seq<char>, Seq<char>)>)
    requires
        0 <= q <= s.len(),
    ensures
        props_at(s, q, acc) matches Ok((_, q2)) ==> q < q2 <= s.len(),
    decreases rem(s, q),
{
    let q1 = skip_ws(s, q);
    lemma_skip_ws(s, q);
    if q1 < s.len() && s[q1] != '}' {
        let c = scan(s, q1, Stop::Char(':'));
        lemma_scan(s, q1, Stop::Char(':'));
        if c < s.len() {
            let k = trim(s.subrange(q1, c));
            let q3 = skip_ws(s, c + 1);
            lemma_skip_ws(s, c + 1);
            lemma_qstr(s, q3);
            lemma_scan(s, q3, Stop::PropValueEnd);
            let vr = if at(s, q3, '"') {
                qstr(s, q3)
            } else {
                let ve = scan(s, q3, Stop::PropValueEnd);
                Ok((trim(s.subrange(q3, ve)), ve))
            };
            if let Ok((v, q4)) = vr {
                let q5 = skip_ws(s, q4);
                lemma_skip_ws(s, q4);
                let q6 = if at(s, q5, ',') {
                    q5 + 1
                } else {
                    q5
                };
                lemma_props_at(s, q6, assoc_insert(acc, k, v));
            }
        }
    }
}

pub proof fn lemma_ann_at(s: Seq<char>, p: int)
    requires
        0 <= p < s.len(),
    ensures
        ann_at(s, p) matches Ok((_, q)) ==> p < q <= s.len(),
{
    let ne = scan(s, p + 1, Stop::NameEnd);
    lemma_scan(s, p + 1, Stop::NameEnd);
    let q1 = skip_ws(s, ne);
    lemma_skip_ws(s, ne);
    if at(s, q1, '(') {
        let e = scan(s, q1 + 1, Stop::Char(')'));
        lemma_scan(s, q1 + 1, Stop::Char(')'));
        if e < s.len() {
            lemma_skip_ws(s, e + 1);
            let q2 = skip_ws(s, e + 1);
            if at(s, q2, '{') {
                lemma_props_at(s, q2 + 1, Seq::empty());
            }
        }
    } else {
        lemma_skip_ws(s, q1);
        let q2 = skip_ws(s, q1);
        if at(s, q2, '{') {
            lemma_props_at(s, q2 + 1, Seq::empty());
        }
    }
}

pub proof fn lemma_conf_at(s: Seq<char>, p: int)
    requires
        0 <= p <= s.len(),
    ensures
        conf_at(s, p) matches Ok((c, q)) ==> (c is None ==> q == p) && (c is Some ==> p < q
            <= s.len()),
{
    if at(s, p, '~') {
        lemma_scan(s, p + 1, Stop::ConfidenceEnd);
    }
}

pub proof fn lemma_key_at(s: Seq<char>, q1: int)
    requires
        0 <= q1 <= s.len(),
    ensures
        key_at(s, q1) matches Ok((_, q2)) ==> q1 <= q2 <= s.len(),
{
    lemma_qstr(s, q1);
    lemma_scan(s, q1, Stop::Char(':'));
}

pub proof fn lemma_trail_anns(s: Seq<char>, q: int, acc: Seq<SAnnotation>)
    requires
        0 <= q <= s.len(),
    ensures
        trail_anns(s, q, acc) matches Ok((_, q2)) ==> q <= q2 <= s.len(),
    decreases rem(s, q),
{
    let q1 = skip_ws(s, q);
    lemma_skip_ws(s, q);
    if at(s, q1, '@') && !starts_at(s, q1, "@synthesize"@) {
        lemma_ann_at(s, q1);
        if let Ok((a, q2)) = ann_at(s, q1) {
            lemma_trail_anns(s, q2, acc.push(a));
        }
    }
}

pub proof fn lemma_meta_at(s: Seq<char>, q: int, conf: Option<Seq<char>>, anns: Seq<SAnnotation>)
    requires
        0 <= q <= s.len(),
    ensures
        meta_at(s, q, conf, anns) matches Ok((_, q2)) ==> q <= q2 <= s.len(),
    decreases rem(s, q),
{
    let q1 = skip_ws(s, q);
    lemma_skip_ws(s, q);
    if q1 < s.len() {
        if s[q1] == '@' {
            lemma_ann_at(s, q1);
            if let Ok((a, q2)) = ann_at(s, q1) {
                lemma_meta_at(s, q2, conf, anns.push(a));
            }
        } else {
            lemma_conf_at(s, q1);
            if let Ok((Some(c), q2)) = conf_at(s, q1) {
                if conf is None {
                    lemma_meta_at(s, q2, Some(c), anns);
                }
            }
        }
    }
}

/// What reading a value, an object, an array or a pair consumes stays within
/// the input, and a pair that is read consumes at least its `:`.
pub proof fn lemma_val_progress(s: Seq<char>, p: int)
    requires
        0 <= p <= s.len(),
    ensures
        val_at(s, p) matches Ok((_, q)) ==> p <= q <= s.len(),
    decreases rem(s, p), 0int,
{
    let q0 = skip_ws(s, p);
    lemma_skip_ws(s, p);
    if q0 < s.len() {
        lemma_ann_at(s, q0);
        lemma_qstr(s, q0);
        lemma_scan(s, q0, Stop::BareEnd);
        if s[q0] == '{' {
            lemma_obj_progress(s, q0 + 1, Seq::empty());
        }
        if s[q0] == '[' {
            lemma_arr_progress(s, q0 + 1, Seq::empty());
        }
        let r = if s[q0] == '@' {
            match ann_at(s, q0) {
                Err(e) => Err(e),
                Ok((a, q)) => if a.name == "synthesize"@ {
                    Ok((SValue::Synthesize(trim_quotes(args_text(a.args))), q))
                } else {
                    Err(("Only @synthesize is supported as a value annotation"@, q))
                },
            }
        } else if s[q0] == '"' {
            match qstr(s, q0) {
                Err(e) => Err(e),
                Ok((t, q)) => Ok((SValue::Str(t), q)),
            }
        } else if keyword_at(s, q0, "true"@) {
            Ok((SValue::Boolean(true), q0 + 4))
        } else if keyword_at(s, q0, "false"@) {
            Ok((SValue::Boolean(false), q0 + 5))
        } else if keyword_at(s, q0, "null"@) {
            Ok((SValue::Null, q0 + 4))
        } else if s[q0] == '{' {
            obj_at(s, q0 + 1, Seq::empty())
        } else if s[q0] == '[' {
            arr_at(s, q0 + 1, Seq::empty())
        } else {
            let e = scan(s, q0, Stop::BareEnd);
            Ok((bare_value(trim(s.subrange(q0, e))), e))
        };
        reveal_strlit("true");
        reveal_strlit("false");
        reveal_strlit("null");
        assert(r matches Ok((_, q)) ==> q0 <= q <= s.len());
        if let Ok((v, q)) = r {
            lemma_skip_ws(s, q);
            lemma_conf_at(s, skip_ws(s, q));
        }
    }
}

pub proof fn lemma_obj_progress(s: Seq<char>, q: int, acc: Seq<(Seq<char>, SNode)>)
    requires
        0 <= q <= s.len(),
    ensures
        obj_at(s, q, acc) matches Ok((_, q2)) ==> q <= q2 <= s.len(),
    decreases rem(s, q), 1int,
{
    let q1 = skip_ws(s, q);
    lemma_skip_ws(s, q);
    if q1 < s.len() && s[q1] != '}' {
        lemma_kv_progress(s, q1);
        if let Ok((Some((k, n)), q2)) = kv_at(s, q1) {
            let kt = key_text(k);
            if q2 > q1 && !has_key(acc, kt) {
                let q3 = skip_ws(s, q2);
                lemma_skip_ws(s, q2);
                let q4 = if at(s, q3, ',') {
                    q3 + 1
                } else {
                    q3
                };
                lemma_obj_progress(s, q4, acc.push((kt, n)));
            }
        }
    }
}

pub proof fn lemma_arr_progress(s: Seq<char>, q: int, acc: Seq<SNode>)
    requires
        0 <= q <= s.len(),
    ensures
        arr_at(s, q, acc) matches Ok((_, q2)) ==> q <= q2 <= s.len(),
    decreases rem(s, q), 1int,
{
    let q1 = skip_ws(s, q);
    lemma_skip_ws(s, q);
    if q1 < s.len() && s[q1] != ']' {
        lemma_val_progress(s, q1);
        if let Ok(((v, c), q2)) = val_at(s, q1) {
            lemma_trail_anns(s, q2, Seq::empty());
            if let Ok((anns, q3)) = trail_anns(s, q2, Seq::empty()) {
                let q4 = skip_ws(s, q3);
                lemma_skip_ws(s, q3);
                let q5 = if at(s, q4, ',') {
                    q4 + 1
                } else {
                    q4
                };
                if q5 > q1 {
                    lemma_arr_progress(s, q5, acc.push(SNode { value: v, confidence: c, annotations: anns }));
                }
            }
        }
    }
}

pub proof fn lemma_kv_progress(s: Seq<char>, p: int)
    requires
        0 <= p <= s.len(),
    ensures
        kv_at(s, p) matches Ok((r, q)) ==> p <= q <= s.len() && (r is Some ==> p < q),
    decreases rem(s, p), 0int,
{
    let q0 = skip_ws(s, p);
    lemma_skip_ws(s, p);
    if q0 < s.len() && !(s[q0] == '[' || s[q0] == '@' || s[q0] == '}' || s[q0] == ']') {
        let q1 = if s[q0] == '~' {
            q0 + 1
        } else {
            q0
        };
        lemma_key_at(s, q1);
        if let Ok((kt, q2)) = key_at(s, q1) {
            let q3 = skip_ws(s, q2);
            lemma_skip_ws(s, q2);
            if at(s, q3, ':') {
                lemma_skip_ws(s, q3 + 1);
                lemma_val_progress(s, skip_ws(s, q3 + 1));
                if let Ok(((v, c), q4)) = val_at(s, skip_ws(s, q3 + 1)) {
                    lemma_meta_at(s, q4, c, Seq::empty());
                }
            }
        }
    }
}

} // verus!
