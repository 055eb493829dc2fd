//! CSON text parser — hand-written recursive descent.
//!
//! Each reading method agrees with its counterpart in `grammar`: on success it
//! returns the view that the grammar gives and leaves `pos` just after what it
//! read; on failure it returns the positional message for the grammar's error
//! and leaves `pos` where reading stopped.
use vstd::prelude::*;

use crate::grammar::{
    ann_at, ann_props, args_text, at, bare_value, conf_at, cson_version, doc_at, doc_finish,
    doc_start, empty_object_node, key_at, kv_at, lemma_kv_progress, lemma_skip_ws, meta_at,
    obj_at, arr_at, parse_doc, props_at, qbody, qstr, scan, section_add, skip_ws, trail_anns,
    val_at, DocState, Stop, starts_at, keyword_at, trim,
};
use crate::model::{
    entries_index_of,
    anns_view, assoc_insert, entries_view, has_key, key_index, key_text, lemma_entries_view,
    lemma_entries_view_push, lemma_entries_view_update, lemma_key_index, lemma_nodes_view_push,
    node_view, nodes_view, opt_text, value_view, CsonAnnotation, CsonDocument, CsonKey, CsonMap,
    CsonNode, CsonValue, PropertyMap, SAnnotation, SDocument, SKey, SNode, SValue,
};
use crate::number::{float_literal, unit_interval};
use crate::scan::{
    char_at, keyword, literal_len, scan_exec, trim_bounds, skip_ws_exec, starts_with_at, text_is, trim_quotes_string,
    trimmed_string, unescape_exec, ws_end_exec,
};
use crate::text::{
    at_boundary, byte_len, byte_pos, byte_pos_exec, char_pos, char_pos_exec, chars_of, error_text,
    lemma_byte_pos_le, lemma_char_pos, make_error, make_error_string, push_char, string_of,
};

verus! {

/// The outcome `r` of a reading method agrees with the grammar's result `g`
/// when the method ended at `pos`, as far as errors go: the grammar fails at
/// `pos` and the message is its positional text.
pub open spec fn err_is<V>(g: Result<(V, int), (Seq<char>, int)>, e: Seq<char>, s: Seq<char>, pos: int) -> bool {
    g matches Err((m, q)) && q == pos && e == error_text(m, s, q)
}

pub open spec fn pair_view(o: Option<(CsonKey, CsonNode)>) -> Option<(SKey, SNode)> {
    match o {
        Some((k, n)) => Some((k@, n@)),
        None => None,
    }
}

pub open spec fn state_view(
    root: Seq<(String, CsonNode)>,
    section: Option<String>,
    pending: Seq<CsonAnnotation>,
    version: String,
) -> DocState {
    DocState {
        root: entries_view(root),
        section: opt_text(section),
        pending: anns_view(pending),
        version: version@,
    }
}

proof fn lemma_anns_view_push(v: Seq<CsonAnnotation>, a: CsonAnnotation)
    ensures
        anns_view(v.push(a)) == anns_view(v).push(a@),
{
    assert(anns_view(v.push(a)) =~= anns_view(v).push(a@));
}

fn finish_document(root: Vec<(String, CsonNode)>, pending: Vec<CsonAnnotation>, version: String) -> (d: CsonDocument)
    ensures
        d@ == doc_finish(state_view(root@, None, pending@, version)),
{
    CsonDocument {
        version,
        root: CsonNode { value: CsonValue::Object(CsonMap { entries: root }), confidence: None, annotations: pending },
    }
}

/// The value of a bare token `s[lo..hi]`.
fn bare_value_exec(s: &Vec<char>, lo: usize, hi: usize) -> (v: CsonValue)
    requires
        lo <= hi <= s.len(),
    ensures
        v@ == bare_value(s@.subrange(lo as int, hi as int)),
{
    let raw = crate::scan::sub_vec(s, lo, hi);
    let text = string_of(s, lo, hi);
    if float_literal(&raw) {
        CsonValue::Number(text)
    } else if text_is(&text, "true") {
        CsonValue::Boolean(true)
    } else if text_is(&text, "false") {
        CsonValue::Boolean(false)
    } else if text_is(&text, "null") {
        CsonValue::Null
    } else {
        CsonValue::String(text)
    }
}

/// The version an `@cson` annotation declares.
fn cson_version_exec(a: &CsonAnnotation, v: String) -> (r: String)
    ensures
        r@ == cson_version(a@, v@),
{
    match a.properties.get("version") {
        Some(x) => x.clone(),
        None => match &a.args {
            Some(arg) => trim_quotes_string(arg),
            None => v,
        },
    }
}

fn empty_object_node_exec() -> (n: CsonNode)
    ensures
        n@ == empty_object_node(),
{
    let n = CsonNode { value: CsonValue::Object(CsonMap::new()), confidence: None, annotations: Vec::new() };
    assert(anns_view(n.annotations@) =~= Seq::<SAnnotation>::empty());
    n
}

/// Adds the pair `(kt, n)` to section `sec` of the root pairs, as
/// `section_add` says; `Err(true)` when the root holds `sec` with a value
/// that is not an object, `Err(false)` when the section already has `kt`.
fn add_to_section(root: &mut Vec<(String, CsonNode)>, sec: &String, kt: String, n: CsonNode) -> (r: Result<(), bool>)
    ensures
        match r {
            Ok(()) => section_add(entries_view(old(root)@), sec@, kt@, n@) == Ok::<
                Seq<(Seq<char>, SNode)>,
                Seq<char>,
            >(entries_view(final(root)@)),
            Err(b) => section_add(entries_view(old(root)@), sec@, kt@, n@) == Err::<
                Seq<(Seq<char>, SNode)>,
                Seq<char>,
            >(if b { sec@ } else { kt@ }),
        },
{
    let ghost r0 = entries_view(root@);
    proof {
        lemma_key_index(r0, sec@);
    }
    let i = match entries_index_of(root, sec) {
        Some(i) => i,
        None => {
            let e = empty_object_node_exec();
            let old_len = root.len();
            let k = sec.clone();
            proof {
                lemma_entries_view_push(root@, (k, e));
            }
            root.push((k, e));
            proof {
                lemma_entries_view(root@);
                lemma_key_index(entries_view(root@), sec@);
                assert(entries_view(root@)[old_len as int].0 == sec@);
            }
            old_len
        },
    };
    let ghost big = root@;
    let ghost r1 = entries_view(root@);
    proof {
        lemma_entries_view(root@);
        lemma_key_index(r1, sec@);
    }
    assert(i as int == key_index(r1, sec@) && i < root.len());
    let mut slot = (String::new(), empty_object_node_exec());
    root.set_and_swap(i, &mut slot);
    let (k0, node0) = slot;
    assert(k0@ == sec@);
    assert(node_view(node0) == r1[i as int].1);
    let CsonNode { value, confidence, annotations } = node0;
    match value {
        CsonValue::Object(mut m) => {
            if m.index_of(&kt).is_some() {
                return Err(false);
            }
            m.push_new(kt, n);
            let e = (k0, CsonNode { value: CsonValue::Object(m), confidence, annotations });
            proof {
                lemma_entries_view_update(big, i as int, e);
            }
            root.set(i, e);
            assert(root@ =~= big.update(i as int, e));
            Ok(())
        },
        _ => Err(true),
    }
}

/// A recursive-descent parser over a CSON text; `pos` is a byte offset into
/// `input`.
pub struct CsonParser<'a> {
    pub input: &'a str,
    pub pos: usize,
}

impl<'a> CsonParser<'a> {
    /// Reading may go on over `s`, the characters of the input: the position is
    /// within the input, and the input is shorter than the largest `usize`
    /// (as any input held in memory is).
    pub open spec fn ready(&self, s: Seq<char>) -> bool {
        s == self.input@ && self.pos <= s.len() && s.len() < usize::MAX
    }

    pub fn new(input: &'a str) -> (p: Self)
        ensures
            p.input == input,
            p.pos == 0,
    {
        CsonParser { input, pos: 0 }
    }

    /// The message `msg` with the line and column of the character at byte
    /// offset `pos`: `"<msg> at line <l>, col <c>"`.
    pub fn error(&self, msg: &str) -> (r: String)
        requires
            self.input@.len() < usize::MAX,
            at_boundary(self.input@, self.pos as int),
            self.pos <= byte_len(self.input@),
        ensures
            r@ == error_text(msg@, self.input@, char_pos(self.input@, self.pos as int)),
    {
        let s = chars_of(self.input);
        let cp = char_pos_exec(&s, self.pos);
        proof {
            if cp > s.len() {
                assert(byte_pos(s@, cp as int) > byte_len(s@));
            }
        }
        make_error(msg, &s, cp)
    }

    fn err(&self, s: &Vec<char>, msg: &str) -> (r: String)
        requires
            self.ready(s@),
        ensures
            r@ == error_text(msg@, s@, self.pos as int),
    {
        make_error(msg, s, self.pos)
    }

    fn err_string(&self, s: &Vec<char>, msg: String) -> (r: String)
        requires
            self.ready(s@),
        ensures
            r@ == error_text(msg@, s@, self.pos as int),
    {
        make_error_string(msg, s, self.pos)
    }

    /// Skips blanks and comments (`#` or `//` up to the end of the line);
    /// `pos` is a byte offset.
    pub fn skip_whitespace_and_comments(&mut self)
        requires
            at_boundary(old(self).input@, old(self).pos as int),
            byte_len(old(self).input@) <= usize::MAX,
        ensures
            final(self).input == old(self).input,
            final(self).pos == byte_pos(
                old(self).input@,
                skip_ws(old(self).input@, char_pos(old(self).input@, old(self).pos as int)),
            ),
    {
        let s = chars_of(self.input);
        let cp = char_pos_exec(&s, self.pos);
        self.pos = cp;
        self.skip(&s);
        proof {
            lemma_skip_ws(s@, cp as int);
            if self.pos <= s.len() {
                lemma_byte_pos_le(s@, self.pos as int);
            }
        }
        self.pos = byte_pos_exec(&s, self.pos);
    }

    fn skip(&mut self, s: &Vec<char>)
        requires
            s@ == old(self).input@,
        ensures
            final(self).input == old(self).input,
            final(self).pos == skip_ws(s@, old(self).pos as int),
            old(self).pos <= s.len() ==> old(self).pos <= final(self).pos <= s.len(),
    {
        if self.pos <= s.len() {
            self.pos = skip_ws_exec(s, self.pos);
        } else {
            proof {
                lemma_skip_ws(s@, self.pos as int);
            }
        }
    }

    fn parse_quoted_string(&mut self, s: &Vec<char>) -> (r: Result<String, String>)
        requires
            old(self).ready(s@),
            old(self).pos < old(self).input@.len(),
        ensures
            final(self).ready(s@),
            final(self).input == old(self).input,
            old(self).pos < final(self).pos,
            match r {
                Ok(t) => qstr(old(self).input@, old(self).pos as int) == Ok::<
                    (Seq<char>, int),
                    (Seq<char>, int),
                >((t@, final(self).pos as int)),
                Err(e) => err_is(
                    qstr(old(self).input@, old(self).pos as int),
                    e@,
                    old(self).input@,
                    final(self).pos as int,
                ),
            },
    {
        let ghost p0 = self.pos as int;
        self.pos = self.pos + 1;
        let mut out = String::new();
        while self.pos < s.len()
            invariant
                self.input == old(self).input,
                self.input@ == s@,
                p0 == old(self).pos,
                p0 <= self.pos,
                p0 + 1 <= self.pos <= s.len() < usize::MAX,
                qbody(s@, self.pos as int, out@) == qbody(s@, p0 + 1, Seq::empty()),
            decreases s.len() - self.pos,
        {
            let c = s[self.pos];
            if c == '\\' {
                if self.pos + 1 < s.len() {
                    let d = unescape_exec(s[self.pos + 1]);
                    push_char(&mut out, d);
                    self.pos = self.pos + 2;
                } else {
                    self.pos = self.pos + 1;
                }
            } else if c == '"' {
                self.pos = self.pos + 1;
                return Ok(out);
            } else {
                push_char(&mut out, c);
                self.pos = self.pos + 1;
            }
        }
        Err(self.err(s, "Unclosed string"))
    }

    /// Annotation properties, after the `{`.
    fn parse_properties(&mut self, s: &Vec<char>) -> (r: Result<PropertyMap, String>)
        requires
            old(self).ready(s@),
        ensures
            final(self).ready(s@),
            final(self).input == old(self).input,
            old(self).pos <= final(self).pos,
            match r {
                Ok(m) => props_at(old(self).input@, old(self).pos as int, Seq::empty()) == Ok::<
                    (Seq<(Seq<char>, Seq<char>)>, int),
                    (Seq<char>, int),
                >((m@, final(self).pos as int)),
                Err(e) => err_is(
                    props_at(old(self).input@, old(self).pos as int, Seq::empty()),
                    e@,
                    old(self).input@,
                    final(self).pos as int,
                ),
            },
    {
        let ghost p0 = self.pos as int;
        let mut properties = PropertyMap::new();
        loop
            invariant
                self.ready(s@),
                self.input == old(self).input,
                self.input@ == s@,
                p0 == old(self).pos,
                p0 <= self.pos,
                props_at(s@, self.pos as int, properties@) == props_at(s@, p0, Seq::empty()),
            decreases s.len() - self.pos,
        {
            let ghost q = self.pos as int;
            self.skip(s);
            if self.pos >= s.len() {
                return Err(self.err(s, "Unclosed annotation properties"));
            }
            if s[self.pos] == '}' {
                self.pos = self.pos + 1;
                return Ok(properties);
            }
            let c = scan_exec(s, self.pos, &Stop::Char(':'));
            if c >= s.len() {
                return Err(self.err(s, "Missing colon in annotation property"));
            }
            let k = trimmed_string(s, self.pos, c);
            self.pos = c + 1;
            self.skip(s);
            let v = if char_at(s, self.pos, '"') {
                match self.parse_quoted_string(s) {
                    Ok(v) => v,
                    Err(e) => {
                        return Err(e);
                    },
                }
            } else {
                let ve = scan_exec(s, self.pos, &Stop::PropValueEnd);
                let v = trimmed_string(s, self.pos, ve);
                self.pos = ve;
                v
            };
            properties.insert(k, v);
            self.skip(s);
            if char_at(s, self.pos, ',') {
                self.pos = self.pos + 1;
            }
        }
    }

    fn parse_annotation(&mut self, s: &Vec<char>) -> (r: Result<CsonAnnotation, String>)
        requires
            old(self).ready(s@),
            old(self).pos < old(self).input@.len(),
        ensures
            final(self).ready(s@),
            final(self).input == old(self).input,
            old(self).pos <= final(self).pos,
            match r {
                Ok(a) => ann_at(old(self).input@, old(self).pos as int) == Ok::<
                    (SAnnotation, int),
                    (Seq<char>, int),
                >((a@, final(self).pos as int)),
                Err(e) => err_is(
                    ann_at(old(self).input@, old(self).pos as int),
                    e@,
                    old(self).input@,
                    final(self).pos as int,
                ),
            },
    {
        let ghost p0 = self.pos as int;
        self.pos = self.pos + 1;
        let ne = scan_exec(s, self.pos, &Stop::NameEnd);
        let name = string_of(s, self.pos, ne);
        self.pos = ne;
        self.skip(s);
        let mut args: Option<String> = None;
        if char_at(s, self.pos, '(') {
            self.pos = self.pos + 1;
            let e = scan_exec(s, self.pos, &Stop::Char(')'));
            if e >= s.len() {
                return Err(self.err(s, "Unclosed annotation args"));
            }
            args = Some(string_of(s, self.pos, e));
            self.pos = e + 1;
        }
        self.skip(s);
        let ghost q2 = self.pos as int;
        assert(ann_at(s@, p0) == ann_props(s@, q2, name@, opt_text(args)));
        if char_at(s, self.pos, '{') {
            self.pos = self.pos + 1;
            match self.parse_properties(s) {
                Ok(properties) => Ok(CsonAnnotation { name, args, properties }),
                Err(e) => Err(e),
            }
        } else {
            let properties = PropertyMap::new();
            Ok(CsonAnnotation { name, args, properties })
        }
    }

    /// A confidence `~<number>`: `None`, reading nothing, when the next token is
    /// not one. A `~` that begins a semantic key (`~"intent"`) is left alone.
    fn parse_confidence(&mut self, s: &Vec<char>) -> (r: Result<Option<String>, String>)
        requires
            old(self).ready(s@),
        ensures
            final(self).ready(s@),
            final(self).input == old(self).input,
            old(self).pos <= final(self).pos,
            match r {
                Ok(c) => conf_at(old(self).input@, old(self).pos as int) == Ok::<
                    (Option<Seq<char>>, int),
                    (Seq<char>, int),
                >((opt_text(c), final(self).pos as int)),
                Err(e) => err_is(
                    conf_at(old(self).input@, old(self).pos as int),
                    e@,
                    old(self).input@,
                    final(self).pos as int,
                ),
            },
    {
                if !char_at(s, self.pos, '~') {
            return Ok(None);
        }
        let w = ws_end_exec(s, self.pos + 1);
        if char_at(s, w, '"') {
            return Ok(None);
        }
        let start = self.pos + 1;
        let e = scan_exec(s, start, &Stop::ConfidenceEnd);
        let t = crate::scan::sub_vec(s, start, e);
        if !float_literal(&t) {
            return Ok(None);
        }
        self.pos = e;
        if !unit_interval(&t) {
            let mut msg = string_of(&t, 0, t.len());
            let mut m = crate::text::string_of_seq_str("Confidence ");
            m.append(msg.as_str());
            m.append(" outside [0.0, 1.0]");
            assert(t@.subrange(0, t.len() as int) =~= t@);
            return Err(self.err_string(s, m));
        }
        assert(t@.subrange(0, t.len() as int) =~= t@);
        Ok(Some(string_of(&t, 0, t.len())))
    }
    /// A value (after blanks) with the confidence that follows it.
    fn parse_value(&mut self, s: &Vec<char>) -> (r: Result<(CsonValue, Option<String>), String>)
        requires
            old(self).ready(s@),
        ensures
            final(self).ready(s@),
            final(self).input == old(self).input,
            old(self).pos <= final(self).pos,
            match r {
                Ok((v, c)) => val_at(s@, old(self).pos as int) == Ok::<
                    ((SValue, Option<Seq<char>>), int),
                    (Seq<char>, int),
                >(((v@, opt_text(c)), final(self).pos as int)),
                Err(e) => err_is(val_at(s@, old(self).pos as int), e@, s@, final(self).pos as int),
            },
        decreases s@.len() - old(self).pos, 0int,
    {
        let ghost p0 = self.pos as int;
        self.skip(s);
        let q0 = self.pos;
        if self.pos >= s.len() {
            return Err(self.err(s, "Unexpected end of input when parsing value"));
        }
        let c = s[self.pos];
        let value: CsonValue;
        if c == '@' {
            let a = match self.parse_annotation(s) {
                Ok(a) => a,
                Err(e) => {
                    return Err(e);
                },
            };
            if text_is(&a.name, "synthesize") {
                let raw = match &a.args {
                    Some(x) => x.clone(),
                    None => String::new(),
                };
                assert(raw@ == args_text(a@.args));
                value = CsonValue::Synthesize(trim_quotes_string(&raw));
            } else {
                return Err(self.err(s, "Only @synthesize is supported as a value annotation"));
            }
        } else if c == '"' {
            match self.parse_quoted_string(s) {
                Ok(t) => {
                    value = CsonValue::String(t);
                },
                Err(e) => {
                    return Err(e);
                },
            }
        } else if keyword(s, q0, "true") {
            proof {
                reveal_strlit("true");
            }
            value = CsonValue::Boolean(true);
            self.pos = q0 + 4;
        } else if keyword(s, q0, "false") {
            proof {
                reveal_strlit("false");
            }
            value = CsonValue::Boolean(false);
            self.pos = q0 + 5;
        } else if keyword(s, q0, "null") {
            proof {
                reveal_strlit("null");
            }
            value = CsonValue::Null;
            self.pos = q0 + 4;
        } else if c == '{' {
            self.pos = q0 + 1;
            match self.parse_object(s) {
                Ok(v) => {
                    value = v;
                },
                Err(e) => {
                    return Err(e);
                },
            }
        } else if c == '[' {
            self.pos = q0 + 1;
            match self.parse_array(s) {
                Ok(v) => {
                    value = v;
                },
                Err(e) => {
                    return Err(e);
                },
            }
        } else {
            let e = scan_exec(s, q0, &Stop::BareEnd);
            let (lo, hi) = trim_bounds(s, q0, e);
            value = bare_value_exec(s, lo, hi);
            self.pos = e;
        }
        let ghost q = self.pos;
        self.skip(s);
        match self.parse_confidence(s) {
            Ok(conf) => Ok((value, conf)),
            Err(e) => Err(e),
        }
    }

    /// The pairs of an object, after its `{`.
    fn parse_object(&mut self, s: &Vec<char>) -> (r: Result<CsonValue, String>)
        requires
            old(self).ready(s@),
        ensures
            final(self).ready(s@),
            final(self).input == old(self).input,
            old(self).pos <= final(self).pos,
            match r {
                Ok(v) => obj_at(s@, old(self).pos as int, Seq::empty()) == Ok::<
                    (SValue, int),
                    (Seq<char>, int),
                >((v@, final(self).pos as int)),
                Err(e) => err_is(
                    obj_at(s@, old(self).pos as int, Seq::empty()),
                    e@,
                    s@,
                    final(self).pos as int,
                ),
            },
        decreases s@.len() - old(self).pos, 1int,
    {
        let ghost p0 = self.pos as int;
        let mut map = CsonMap::new();
        loop
            invariant
                self.ready(s@),
                self.input == old(self).input,
                p0 == old(self).pos,
                p0 <= self.pos,
                obj_at(s@, self.pos as int, map@) == obj_at(s@, p0, Seq::empty()),
            decreases s.len() - self.pos,
        {
            self.skip(s);
            let q1 = self.pos;
            if self.pos >= s.len() {
                return Err(self.err(s, "Unclosed object"));
            }
            if s[self.pos] == '}' {
                self.pos = self.pos + 1;
                return Ok(CsonValue::Object(map));
            }
            let kv = match self.parse_kv_pair(s) {
                Ok(kv) => kv,
                Err(e) => {
                    return Err(e);
                },
            };
            proof {
                lemma_kv_progress(s@, q1 as int);
            }
            match kv {
                None => {
                    self.pos = q1;
                    return Err(self.err(s, "Unexpected character in object"));
                },
                Some((k, node)) => {
                    let kt = k.to_string();
                    if map.index_of(&kt).is_some() {
                        let mut m = crate::text::string_of_seq_str("Duplicate key: ");
                        m.append(kt.as_str());
                        return Err(self.err_string(s, m));
                    }
                    map.push_new(kt, node);
                    self.skip(s);
                    if char_at(s, self.pos, ',') {
                        self.pos = self.pos + 1;
                    }
                },
            }
        }
    }

    /// The elements of an array, after its `[`.
    fn parse_array(&mut self, s: &Vec<char>) -> (r: Result<CsonValue, String>)
        requires
            old(self).ready(s@),
        ensures
            final(self).ready(s@),
            final(self).input == old(self).input,
            old(self).pos <= final(self).pos,
            match r {
                Ok(v) => arr_at(s@, old(self).pos as int, Seq::empty()) == Ok::<
                    (SValue, int),
                    (Seq<char>, int),
                >((v@, final(self).pos as int)),
                Err(e) => err_is(
                    arr_at(s@, old(self).pos as int, Seq::empty()),
                    e@,
                    s@,
                    final(self).pos as int,
                ),
            },
        decreases s@.len() - old(self).pos, 1int,
    {
        let ghost p0 = self.pos as int;
        let mut items: Vec<CsonNode> = Vec::new();
        loop
            invariant
                self.ready(s@),
                self.input == old(self).input,
                p0 == old(self).pos,
                p0 <= self.pos,
                arr_at(s@, self.pos as int, nodes_view(items@)) == arr_at(s@, p0, Seq::empty()),
            decreases s.len() - self.pos,
        {
            self.skip(s);
            let q1 = self.pos;
            if self.pos >= s.len() {
                return Err(self.err(s, "Unclosed array"));
            }
            if s[self.pos] == ']' {
                self.pos = self.pos + 1;
                return Ok(CsonValue::Array(items));
            }
            let (v, c) = match self.parse_value(s) {
                Ok(vc) => vc,
                Err(e) => {
                    return Err(e);
                },
            };
            let anns = match self.parse_trailing_annotations(s) {
                Ok(a) => a,
                Err(e) => {
                    return Err(e);
                },
            };
            self.skip(s);
            let q4 = self.pos;
            if char_at(s, self.pos, ',') {
                self.pos = self.pos + 1;
            }
            if self.pos <= q1 {
                self.pos = q1;
                return Err(self.err(s, "Unexpected character in array"));
            }
            if self.pos == q4 && q4 < s.len() && s[q4] != ']' {
                return Err(self.err(s, "Expected ',' or ']' in array"));
            }
            let node = CsonNode { value: v, confidence: c, annotations: anns };
            proof {
                lemma_nodes_view_push(items@, node);
            }
            items.push(node);
        }
    }

    /// Annotations trailing an array element, e.g. `"x" @note @wip { a: "b" }`.
    fn parse_trailing_annotations(&mut self, s: &Vec<char>) -> (r: Result<Vec<CsonAnnotation>, String>)
        requires
            old(self).ready(s@),
        ensures
            final(self).ready(s@),
            final(self).input == old(self).input,
            old(self).pos <= final(self).pos,
            match r {
                Ok(v) => trail_anns(s@, old(self).pos as int, Seq::empty()) == Ok::<
                    (Seq<SAnnotation>, int),
                    (Seq<char>, int),
                >((anns_view(v@), final(self).pos as int)),
                Err(e) => err_is(
                    trail_anns(s@, old(self).pos as int, Seq::empty()),
                    e@,
                    s@,
                    final(self).pos as int,
                ),
            },
    {
        let ghost p0 = self.pos as int;
        let mut out: Vec<CsonAnnotation> = Vec::new();
        assert(anns_view(out@) =~= Seq::<SAnnotation>::empty());
        loop
            invariant
                self.ready(s@),
                self.input == old(self).input,
                p0 == old(self).pos,
                p0 <= self.pos,
                trail_anns(s@, self.pos as int, anns_view(out@)) == trail_anns(s@, p0, Seq::empty()),
            decreases s.len() - self.pos,
        {
            let save = self.pos;
            self.skip(s);
            let q1 = self.pos;
            if char_at(s, self.pos, '@') && !starts_with_at(s, self.pos, "@synthesize") {
                let a = match self.parse_annotation(s) {
                    Ok(a) => a,
                    Err(e) => {
                        return Err(e);
                    },
                };
                proof {
                    crate::grammar::lemma_ann_at(s@, q1 as int);
                }
                let ghost prev = out@;
                out.push(a);
                proof {
                    lemma_anns_view_push(prev, a);
                }
            } else {
                self.pos = save;
                return Ok(out);
            }
        }
    }

    /// The annotations and confidence that follow a value in a pair. Metadata
    /// order is free: `v ~0.9 @wip` and `v @wip ~0.9` are the same node.
    fn parse_metadata(&mut self, s: &Vec<char>, conf: Option<String>) -> (r: Result<
        (Option<String>, Vec<CsonAnnotation>),
        String,
    >)
        requires
            old(self).ready(s@),
        ensures
            final(self).ready(s@),
            final(self).input == old(self).input,
            old(self).pos <= final(self).pos,
            match r {
                Ok((c, v)) => meta_at(s@, old(self).pos as int, opt_text(conf), Seq::empty())
                    == Ok::<((Option<Seq<char>>, Seq<SAnnotation>), int), (Seq<char>, int)>(
                    ((opt_text(c), anns_view(v@)), final(self).pos as int),
                ),
                Err(e) => err_is(
                    meta_at(s@, old(self).pos as int, opt_text(conf), Seq::empty()),
                    e@,
                    s@,
                    final(self).pos as int,
                ),
            },
    {
        let ghost p0 = self.pos as int;
        let mut cur = conf;
        let mut anns: Vec<CsonAnnotation> = Vec::new();
        assert(anns_view(anns@) =~= Seq::<SAnnotation>::empty());
        loop
            invariant
                self.ready(s@),
                self.input == old(self).input,
                p0 == old(self).pos,
                p0 <= self.pos,
                meta_at(s@, self.pos as int, opt_text(cur), anns_view(anns@)) == meta_at(
                    s@,
                    p0,
                    opt_text(conf),
                    Seq::empty(),
                ),
            decreases s.len() - self.pos,
        {
            self.skip(s);
            let q1 = self.pos;
            if self.pos >= s.len() {
                return Ok((cur, anns));
            }
            if s[self.pos] == '@' {
                let a = match self.parse_annotation(s) {
                    Ok(a) => a,
                    Err(e) => {
                        return Err(e);
                    },
                };
                proof {
                    crate::grammar::lemma_ann_at(s@, q1 as int);
                }
                let ghost prev = anns@;
                anns.push(a);
                proof {
                    lemma_anns_view_push(prev, a);
                }
            } else {
                match self.parse_confidence(s) {
                    Ok(Some(c)) => {
                        proof {
                            crate::grammar::lemma_conf_at(s@, q1 as int);
                        }
                        if cur.is_some() {
                            return Err(self.err(s, "Duplicate confidence on a node"));
                        }
                        cur = Some(c);
                    },
                    Ok(None) => {
                        return Ok((cur, anns));
                    },
                    Err(e) => {
                        return Err(e);
                    },
                }
            }
        }
    }

    /// A key/value pair (after blanks): `None`, reading only the blanks, when
    /// the input ends or a section, annotation or closing bracket comes first.
    fn parse_kv_pair(&mut self, s: &Vec<char>) -> (r: Result<Option<(CsonKey, CsonNode)>, String>)
        requires
            old(self).ready(s@),
        ensures
            final(self).ready(s@),
            final(self).input == old(self).input,
            old(self).pos <= final(self).pos,
            match r {
                Ok(o) => kv_at(s@, old(self).pos as int) == Ok::<
                    (Option<(SKey, SNode)>, int),
                    (Seq<char>, int),
                >((pair_view(o), final(self).pos as int)),
                Err(e) => err_is(kv_at(s@, old(self).pos as int), e@, s@, final(self).pos as int),
            },
        decreases s@.len() - old(self).pos, 0int,
    {
        let ghost p0 = self.pos as int;
        self.skip(s);
        if self.pos >= s.len() {
            return Ok(None);
        }
        let c = s[self.pos];
        if c == '[' || c == '@' || c == '}' || c == ']' {
            return Ok(None);
        }
        let sem = c == '~';
        if sem {
            self.pos = self.pos + 1;
        }
        let ghost q1 = self.pos as int;
        let kt = if char_at(s, self.pos, '"') {
            match self.parse_quoted_string(s) {
                Ok(t) => t,
                Err(e) => {
                    return Err(e);
                },
            }
        } else {
            let colon = scan_exec(s, self.pos, &Stop::Char(':'));
            if colon >= s.len() {
                return Err(self.err(s, "Missing colon in kv pair"));
            }
            let k = trimmed_string(s, self.pos, colon);
            self.pos = colon;
            k
        };
        assert(key_at(s@, q1) == Ok::<(Seq<char>, int), (Seq<char>, int)>((kt@, self.pos as int)));
        let key = if sem {
            CsonKey::Semantic(kt)
        } else {
            CsonKey::Exact(kt)
        };
        self.skip(s);
        if !char_at(s, self.pos, ':') {
            return Err(self.err(s, "Expected ':' after key"));
        }
        self.pos = self.pos + 1;
        self.skip(s);
        let (value, conf) = match self.parse_value(s) {
            Ok(vc) => vc,
            Err(e) => {
                return Err(e);
            },
        };
        match self.parse_metadata(s, conf) {
            Ok((confidence, annotations)) => Ok(
                Some((key, CsonNode { value, confidence, annotations })),
            ),
            Err(e) => Err(e),
        }
    }

    /// Parses the document from byte offset `pos` on; `pos` ends after what
    /// was read, or where the error stands.
    ///
    /// Blanks and comments are skipped; `@cson` sets the version; any other
    /// annotation waits for the next pair; `[name]` opens a section, whose pairs
    /// go into the root object under `name`; a duplicate key is an error.
    pub fn parse(&mut self) -> (r: Result<CsonDocument, String>)
        requires
            old(self).input@.len() < usize::MAX,
            byte_len(old(self).input@) <= usize::MAX,
            at_boundary(old(self).input@, old(self).pos as int),
        ensures
            final(self).input == old(self).input,
            at_boundary(old(self).input@, final(self).pos as int),
            match r {
                Ok(d) => parse_doc(
                    old(self).input@,
                    char_pos(old(self).input@, old(self).pos as int),
                ) == Ok::<(SDocument, int), (Seq<char>, int)>(
                    (d@, char_pos(old(self).input@, final(self).pos as int)),
                ),
                Err(e) => err_is(
                    parse_doc(old(self).input@, char_pos(old(self).input@, old(self).pos as int)),
                    e@,
                    old(self).input@,
                    char_pos(old(self).input@, final(self).pos as int),
                ),
            },
    {
        let s = chars_of(self.input);
        let cp = char_pos_exec(&s, self.pos);
        self.pos = cp;
        let r = self.parse_chars();
        proof {
            if self.pos <= s.len() {
                lemma_byte_pos_le(s@, self.pos as int);
            }
            lemma_char_pos(s@, self.pos as int);
        }
        self.pos = byte_pos_exec(&s, self.pos);
        r
    }

    /// `parse` over character positions.
    fn parse_chars(&mut self) -> (r: Result<CsonDocument, String>)
        requires
            old(self).input@.len() < usize::MAX,
        ensures
            final(self).input == old(self).input,
            final(self).pos <= old(self).input@.len() || final(self).pos == old(self).pos,
            match r {
                Ok(d) => parse_doc(old(self).input@, old(self).pos as int) == Ok::<
                    (SDocument, int),
                    (Seq<char>, int),
                >((d@, final(self).pos as int)),
                Err(e) => err_is(
                    parse_doc(old(self).input@, old(self).pos as int),
                    e@,
                    old(self).input@,
                    final(self).pos as int,
                ),
            },
    {
        let s = chars_of(self.input);
        let mut root: Vec<(String, CsonNode)> = Vec::new();
        let mut section: Option<String> = None;
        let mut pending: Vec<CsonAnnotation> = Vec::new();
        let mut version = crate::text::string_of_seq_str("1.0");
        proof {
            assert(anns_view(pending@) =~= Seq::<SAnnotation>::empty());
        }
        if self.pos >= s.len() {
            return Ok(finish_document(root, pending, version));
        }
        let ghost p0 = self.pos as int;
        loop
            invariant
                self.ready(s@),
                self.input == old(self).input,
                p0 == old(self).pos,
                doc_at(s@, self.pos as int, state_view(root@, section, pending@, version))
                    == parse_doc(s@, p0),
            decreases s.len() - self.pos,
        {
            if self.pos >= s.len() {
                return Ok(finish_document(root, pending, version));
            }
            self.skip(&s);
            let q1 = self.pos;
            if self.pos >= s.len() {
                return Ok(finish_document(root, pending, version));
            }
            if s[self.pos] == '@' {
                let a = match self.parse_annotation(&s) {
                    Ok(a) => a,
                    Err(e) => {
                        return Err(e);
                    },
                };
                proof {
                    crate::grammar::lemma_ann_at(s@, q1 as int);
                }
                if text_is(&a.name, "cson") {
                    version = cson_version_exec(&a, version);
                } else {
                    let ghost prev = pending@;
                    pending.push(a);
                    proof {
                        lemma_anns_view_push(prev, a);
                    }
                }
            } else if s[self.pos] == '[' {
                self.pos = self.pos + 1;
                let e = scan_exec(&s, self.pos, &Stop::Char(']'));
                if e >= s.len() {
                    return Err(self.err(&s, "Unclosed section"));
                }
                section = Some(trimmed_string(&s, self.pos, e));
                self.pos = e + 1;
            } else {
                let kv = match self.parse_kv_pair(&s) {
                    Ok(kv) => kv,
                    Err(e) => {
                        return Err(e);
                    },
                };
                proof {
                    lemma_kv_progress(s@, q1 as int);
                }
                match kv {
                    None => {
                        return Err(self.err(&s, "Unexpected character in document"));
                    },
                    Some((k, node)) => {
                        let CsonNode { value, confidence, mut annotations } = node;
                        let ghost a0 = annotations@;
                        let ghost pv = pending@;
                        annotations.append(&mut pending);
                        proof {
                            assert(anns_view(annotations@) =~= anns_view(a0) + anns_view(pv));
                            assert(anns_view(pending@) =~= Seq::<SAnnotation>::empty());
                        }
                        let node = CsonNode { value, confidence, annotations };
                        let kt = k.to_string();
                        let mut m = crate::text::string_of_seq_str("Duplicate key: ");
                        m.append(kt.as_str());
                        match &section {
                            None => {
                                let i = entries_index_of(&root, &kt);
                                if i.is_some() {
                                    return Err(self.err_string(&s, m));
                                }
                                proof {
                                    lemma_entries_view_push(root@, (kt, node));
                                }
                                root.push((kt, node));
                            },
                            Some(sec) => {
                                match add_to_section(&mut root, sec, kt, node) {
                                    Ok(()) => {},
                                    Err(true) => {
                                        let mut m2 = crate::text::string_of_seq_str("Duplicate key: ");
                                        m2.append(sec.as_str());
                                        return Err(self.err_string(&s, m2));
                                    },
                                    Err(false) => {
                                        return Err(self.err_string(&s, m));
                                    },
                                }
                            },
                        }
                    },
                }
            }
        }
    }

}

} // verus!
