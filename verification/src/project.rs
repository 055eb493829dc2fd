//! JSON projection.
//!
//! One rule: a node with no metadata projects to its bare value; a node carrying
//! confidence or annotations projects to a wrapper object
//! `{"$value": …, "$confidence": …, "$annotations": [ … ]}` with the metadata
//! members omitted when absent. The wrapper is keyed on the node, so it applies
//! to object values and array elements alike. A semantic key projects to its
//! intent text; a key starting with `$` is reserved and cannot be projected.
//!
//! Numbers project as the literal they hold; turning a literal into a JSON
//! double is left to the consumer of the projection.
use vstd::prelude::*;

use crate::model::{
    anns_view, assoc_insert, entries_view, key_index, lemma_entries_view, lemma_key_index,
    lemma_nodes_view, node_view, nodes_view, CsonAnnotation, CsonDocument, CsonNode, CsonValue,
    SAnnotation, SNode, SValue,
};
use crate::text::string_of_seq_str;
use crate::print::lemma_take_step;

verus! {

/// A JSON value; numbers keep their literal.
#[derive(Debug, PartialEq)]
pub enum JsonValue {
    Null,
    Bool(bool),
    Number(String),
    String(String),
    Array(Vec<JsonValue>),
    Object(Vec<(String, JsonValue)>),
}

pub enum SJson {
    Null,
    Bool(bool),
    Number(Seq<char>),
    Str(Seq<char>),
    Array(Seq<SJson>),
    Object(Seq<(Seq<char>, SJson)>),
}

/// Error returned when a document cannot be projected.
#[derive(Debug, Clone, PartialEq, Eq)]
pub enum ProjectError {
    /// `$`-prefixed keys are reserved so that a document key can never collide
    /// with a wrapper member.
    ReservedKey(String),
}

pub open spec fn json_view(j: JsonValue) -> SJson
    decreases j,
{
    match j {
        JsonValue::Null => SJson::Null,
        JsonValue::Bool(b) => SJson::Bool(b),
        JsonValue::Number(t) => SJson::Number(t@),
        JsonValue::String(t) => SJson::Str(t@),
        JsonValue::Array(a) => SJson::Array(jsons_view(a@)),
        JsonValue::Object(m) => SJson::Object(jentries_view(m@)),
    }
}

pub open spec fn jsons_view(s: Seq<JsonValue>) -> Seq<SJson>
    decreases s,
{
    if s.len() == 0 {
        Seq::empty()
    } else {
        jsons_view(s.drop_last()).push(json_view(s.last()))
    }
}

pub open spec fn jentries_view(s: Seq<(String, JsonValue)>) -> Seq<(Seq<char>, SJson)>
    decreases s,
{
    if s.len() == 0 {
        Seq::empty()
    } else {
        jentries_view(s.drop_last()).push((s.last().0@, json_view(s.last().1)))
    }
}

impl View for JsonValue {
    type V = SJson;

    open spec fn view(&self) -> SJson {
        json_view(*self)
    }
}

/// The key of a stored key in the projection: without the `~` of a semantic key.
pub open spec fn projected_key(k: Seq<char>) -> Seq<char> {
    if k.len() > 0 && k[0] == '~' {
        k.skip(1)
    } else {
        k
    }
}

pub open spec fn string_props(p: Seq<(Seq<char>, Seq<char>)>) -> Seq<(Seq<char>, SJson)>
    decreases p.len(),
{
    if p.len() == 0 {
        Seq::empty()
    } else {
        assoc_insert(string_props(p.drop_last()), p.last().0, SJson::Str(p.last().1))
    }
}

/// `{"name": …, "args": … or null, "properties": {…}}`
pub open spec fn annotation_json(a: SAnnotation) -> SJson {
    SJson::Object(
        seq![
            ("name"@, SJson::Str(a.name)),
            (
                "args"@,
                match a.args {
                    Some(x) => SJson::Str(x),
                    None => SJson::Null,
                },
            ),
            ("properties"@, SJson::Object(string_props(a.properties))),
        ],
    )
}

pub open spec fn annotations_json(a: Seq<SAnnotation>) -> Seq<SJson>
    decreases a.len(),
{
    if a.len() == 0 {
        Seq::empty()
    } else {
        annotations_json(a.drop_last()).push(annotation_json(a.last()))
    }
}

/// The bare value when the node carries no metadata, the wrapper otherwise.
pub open spec fn wrap(n: SNode, j: SJson) -> SJson {
    if n.confidence is None && n.annotations.len() == 0 {
        j
    } else {
        SJson::Object(
            seq![("$value"@, j)] + (match n.confidence {
                Some(c) => seq![("$confidence"@, SJson::Number(c))],
                None => Seq::empty(),
            }) + (if n.annotations.len() > 0 {
                seq![("$annotations"@, SJson::Array(annotations_json(n.annotations)))]
            } else {
                Seq::empty()
            }),
        )
    }
}

/// The projection of a node, or the first reserved key met.
pub open spec fn project_node_spec(n: SNode) -> Result<SJson, Seq<char>>
    decreases n, 0int,
{
    match project_value_spec(n.value) {
        Ok(j) => Ok(wrap(n, j)),
        Err(k) => Err(k),
    }
}

pub open spec fn project_value_spec(v: SValue) -> Result<SJson, Seq<char>>
    decreases v, 0int,
{
    match v {
        SValue::Str(s) => Ok(SJson::Str(s)),
        SValue::Number(t) => Ok(SJson::Number(t)),
        SValue::Boolean(b) => Ok(SJson::Bool(b)),
        SValue::Null => Ok(SJson::Null),
        SValue::Synthesize(s) => Ok(SJson::Object(seq![("$synthesize"@, SJson::Str(s))])),
        SValue::Array(items) => match project_items(items) {
            Ok(js) => Ok(SJson::Array(js)),
            Err(k) => Err(k),
        },
        SValue::Object(m) => match project_pairs(m) {
            Ok(ps) => Ok(SJson::Object(ps)),
            Err(k) => Err(k),
        },
    }
}

pub open spec fn project_items(items: Seq<SNode>) -> Result<Seq<SJson>, Seq<char>>
    decreases items, 0int,
{
    if items.len() == 0 {
        Ok(Seq::empty())
    } else {
        match project_items(items.drop_last()) {
            Err(k) => Err(k),
            Ok(js) => match project_node_spec(items.last()) {
                Err(k) => Err(k),
                Ok(j) => Ok(js.push(j)),
            },
        }
    }
}

/// Pairs in order; a later pair whose projected key equals an earlier one's
/// replaces it, as `serde_json::Map::insert` does.
pub open spec fn project_pairs(m: Seq<(Seq<char>, SNode)>) -> Result<Seq<(Seq<char>, SJson)>, Seq<char>>
    decreases m, 0int,
{
    if m.len() == 0 {
        Ok(Seq::empty())
    } else {
        match project_pairs(m.drop_last()) {
            Err(k) => Err(k),
            Ok(ps) => {
                let key = projected_key(m.last().0);
                if key.len() > 0 && key[0] == '$' {
                    Err(key)
                } else {
                    match project_node_spec(m.last().1) {
                        Err(k) => Err(k),
                        Ok(j) => Ok(assoc_insert(ps, key, j)),
                    }
                }
            },
        }
    }
}

// ---------------------------------------------------------------------------
// Lemmas
// ---------------------------------------------------------------------------

proof fn lemma_jsons_view_push(v: Seq<JsonValue>, x: JsonValue)
    ensures
        jsons_view(v.push(x)) == jsons_view(v).push(json_view(x)),
{
    assert(v.push(x).drop_last() =~= v);
}

proof fn lemma_jentries_view(v: Seq<(String, JsonValue)>)
    ensures
        jentries_view(v).len() == v.len(),
        forall|i: int|
            0 <= i < v.len() ==> #[trigger] jentries_view(v)[i] == (v[i].0@, json_view(v[i].1)),
    decreases v.len(),
{
    if v.len() > 0 {
        lemma_jentries_view(v.drop_last());
    }
}


proof fn lemma_items_err(s: Seq<SNode>, j: int, k: Seq<char>)
    requires
        0 <= j <= s.len(),
        project_items(s.take(j)) == Err::<Seq<SJson>, Seq<char>>(k),
    ensures
        project_items(s) == Err::<Seq<SJson>, Seq<char>>(k),
    decreases s.len() - j,
{
    if j < s.len() {
        lemma_take_step(s, j);
        lemma_items_err(s, j + 1, k);
    } else {
        assert(s.take(j) =~= s);
    }
}

proof fn lemma_pairs_err(s: Seq<(Seq<char>, SNode)>, j: int, k: Seq<char>)
    requires
        0 <= j <= s.len(),
        project_pairs(s.take(j)) == Err::<Seq<(Seq<char>, SJson)>, Seq<char>>(k),
    ensures
        project_pairs(s) == Err::<Seq<(Seq<char>, SJson)>, Seq<char>>(k),
    decreases s.len() - j,
{
    if j < s.len() {
        lemma_take_step(s, j);
        lemma_pairs_err(s, j + 1, k);
    } else {
        assert(s.take(j) =~= s);
    }
}

// ---------------------------------------------------------------------------
// Executable projection
// ---------------------------------------------------------------------------

/// `serde_json::Map::insert` on the members of an object.
fn json_insert(m: &mut Vec<(String, JsonValue)>, k: String, v: JsonValue)
    ensures
        jentries_view(final(m)@) == assoc_insert(jentries_view(old(m)@), k@, v@),
{
    let ghost mv = jentries_view(m@);
    proof {
        lemma_jentries_view(m@);
        lemma_key_index(mv, k@);
    }
    let i = crate::model::find_key(m, &k);
    proof {
        assert forall|j: int| 0 <= j < i implies mv[j].0 != k@ by {
            assert(mv[j] == (m@[j].0@, json_view(m@[j].1)));
        }
        if i < m.len() {
            assert(mv[i as int].0 == k@);
            if key_index(mv, k@) < i {
                assert(mv[key_index(mv, k@)].0 == k@);
            }
        }
    }
    if i < m.len() {
        let ghost e = (k@, v@);
        let ghost old_m = m@;
        m.set(i, (k, v));
        proof {
            lemma_jentries_view(m@);
            assert(jentries_view(m@) =~= mv.update(i as int, e));
        }
    } else {
        let ghost old_m = m@;
        let x = (k, v);
        m.push(x);
        proof {
            assert(m@.drop_last() =~= old_m);
        }
    }
}

fn string_props_exec(a: &CsonAnnotation) -> (r: Vec<(String, JsonValue)>)
    ensures
        jentries_view(r@) == string_props(a.properties@),
{
    let ghost p = a.properties@;
    let mut out: Vec<(String, JsonValue)> = Vec::new();
    let mut i: usize = 0;
    while i < a.properties.entries.len()
        invariant
            p == a.properties@,
            p.len() == a.properties.entries.len(),
            i <= a.properties.entries.len(),
            jentries_view(out@) == string_props(p.take(i as int)),
        decreases a.properties.entries.len() - i,
    {
        proof {
            lemma_take_step(p, i as int);
            assert(p[i as int] == (a.properties.entries@[i as int].0@, a.properties.entries@[i as int].1@));
        }
        let k = a.properties.entries[i].0.clone();
        let v = a.properties.entries[i].1.clone();
        json_insert(&mut out, k, JsonValue::String(v));
        i = i + 1;
    }
    assert(p.take(p.len() as int) =~= p);
    out
}

fn annotation_json_exec(a: &CsonAnnotation) -> (r: JsonValue)
    ensures
        r@ == annotation_json(a@),
{
    let mut m: Vec<(String, JsonValue)> = Vec::new();
    m.push((string_of_seq_str("name"), JsonValue::String(a.name.clone())));
    let args = match &a.args {
        Some(x) => JsonValue::String(x.clone()),
        None => JsonValue::Null,
    };
    m.push((string_of_seq_str("args"), args));
    let props = string_props_exec(a);
    m.push((string_of_seq_str("properties"), JsonValue::Object(props)));
    proof {
        lemma_jentries_view(m@);
        assert(jentries_view(m@) =~= seq![
            ("name"@, SJson::Str(a@.name)),
            (
                "args"@,
                match a@.args {
                    Some(x) => SJson::Str(x),
                    None => SJson::Null,
                },
            ),
            ("properties"@, SJson::Object(string_props(a@.properties))),
        ]);
    }
    let r = JsonValue::Object(m);
    let ghost expect = seq![
        ("name"@, SJson::Str(a@.name)),
        (
            "args"@,
            match a@.args {
                Some(x) => SJson::Str(x),
                None => SJson::Null,
            },
        ),
        ("properties"@, SJson::Object(string_props(a@.properties))),
    ];
    assert(annotation_json(a@)->Object_0 =~= expect);
    assert(jentries_view(m@) == expect);
    assert(r@ == SJson::Object(jentries_view(m@)));
    r
}

fn annotations_of(node: &CsonNode) -> (r: JsonValue)
    ensures
        r@ == SJson::Array(annotations_json(anns_view(node.annotations@))),
{
    let ghost av = anns_view(node.annotations@);
    let mut out: Vec<JsonValue> = Vec::new();
    let mut i: usize = 0;
    while i < node.annotations.len()
        invariant
            av == anns_view(node.annotations@),
            i <= node.annotations.len(),
            jsons_view(out@) == annotations_json(av.take(i as int)),
        decreases node.annotations.len() - i,
    {
        proof {
            lemma_take_step(av, i as int);
        }
        let j = annotation_json_exec(&node.annotations[i]);
        proof {
            lemma_jsons_view_push(out@, j);
        }
        out.push(j);
        i = i + 1;
    }
    assert(av.take(node.annotations.len() as int) =~= av);
    JsonValue::Array(out)
}

/// Bare value when the node carries no metadata, wrapper object otherwise.
fn wrap_exec(node: &CsonNode, projected: JsonValue) -> (r: JsonValue)
    ensures
        r@ == wrap(node@, projected@),
{
    if node.confidence.is_none() && node.annotations.len() == 0 {
        return projected;
    }
    let ghost pj = projected@;
    let mut m: Vec<(String, JsonValue)> = Vec::new();
    m.push((string_of_seq_str("$value"), projected));
    match &node.confidence {
        Some(c) => {
            m.push((string_of_seq_str("$confidence"), JsonValue::Number(c.clone())));
        },
        None => {},
    }
    if node.annotations.len() > 0 {
        let a = annotations_of(node);
        m.push((string_of_seq_str("$annotations"), a));
    }
    proof {
        lemma_jentries_view(m@);
        assert(jentries_view(m@) =~= seq![("$value"@, pj)] + (match node@.confidence {
            Some(c) => seq![("$confidence"@, SJson::Number(c))],
            None => Seq::<(Seq<char>, SJson)>::empty(),
        }) + (if node@.annotations.len() > 0 {
            seq![("$annotations"@, SJson::Array(annotations_json(node@.annotations)))]
        } else {
            Seq::<(Seq<char>, SJson)>::empty()
        }));
    }
    JsonValue::Object(m)
}

fn project_node(node: &CsonNode) -> (r: Result<JsonValue, ProjectError>)
    ensures
        match r {
            Ok(j) => project_node_spec(node@) == Ok::<SJson, Seq<char>>(j@),
            Err(ProjectError::ReservedKey(k)) => project_node_spec(node@) == Err::<SJson, Seq<char>>(k@),
        },
    decreases node,
{
    let value: JsonValue = match &node.value {
        CsonValue::String(s) => JsonValue::String(s.clone()),
        CsonValue::Number(t) => JsonValue::Number(t.clone()),
        CsonValue::Boolean(b) => JsonValue::Bool(*b),
        CsonValue::Null => JsonValue::Null,
        CsonValue::Synthesize(s) => {
            let mut m: Vec<(String, JsonValue)> = Vec::new();
            m.push((string_of_seq_str("$synthesize"), JsonValue::String(s.clone())));
            proof {
                lemma_jentries_view(m@);
                assert(jentries_view(m@) =~= seq![("$synthesize"@, SJson::Str(s@))]);
            }
            JsonValue::Object(m)
        },
        CsonValue::Array(items) => {
            let ghost nv = nodes_view(items@);
            proof {
                lemma_nodes_view(items@);
            }
            let mut out: Vec<JsonValue> = Vec::new();
            let mut i: usize = 0;
            while i < items.len()
                invariant
                    node.value == CsonValue::Array(*items),
                    nv == nodes_view(items@),
                    nv.len() == items.len(),
                    forall|k: int| 0 <= k < items.len() ==> #[trigger] nv[k] == node_view(items@[k]),
                    i <= items.len(),
                    project_items(nv.take(i as int)) == Ok::<Seq<SJson>, Seq<char>>(jsons_view(out@)),
                decreases items.len() - i,
            {
                proof {
                    lemma_take_step(nv, i as int);
                    assert(decreases_to!(*node => node.value));
                    assert(decreases_to!(node.value => node.value->Array_0));
                    assert(decreases_to!(node.value->Array_0 => node.value->Array_0@));
                    assert(decreases_to!(*node => items@[i as int]));
                }
                match project_node(&items[i]) {
                    Ok(j) => {
                        proof {
                            lemma_jsons_view_push(out@, j);
                        }
                        out.push(j);
                    },
                    Err(e) => {
                        proof {
                            let ProjectError::ReservedKey(k) = e;
                            lemma_items_err(nv, i + 1, k@);
                        }
                        return Err(e);
                    },
                }
                i = i + 1;
            }
            assert(nv.take(items.len() as int) =~= nv);
            JsonValue::Array(out)
        },
        CsonValue::Object(map) => {
            let ghost mv = entries_view(map.entries@);
            proof {
                lemma_entries_view(map.entries@);
            }
            let mut out: Vec<(String, JsonValue)> = Vec::new();
            let mut i: usize = 0;
            while i < map.entries.len()
                invariant
                    node.value == CsonValue::Object(*map),
                    mv == entries_view(map.entries@),
                    mv.len() == map.entries.len(),
                    forall|k: int|
                        0 <= k < map.entries.len() ==> #[trigger] mv[k] == (
                            map.entries@[k].0@,
                            node_view(map.entries@[k].1),
                        ),
                    i <= map.entries.len(),
                    project_pairs(mv.take(i as int)) == Ok::<Seq<(Seq<char>, SJson)>, Seq<char>>(
                        jentries_view(out@),
                    ),
                decreases map.entries.len() - i,
            {
                proof {
                    lemma_take_step(mv, i as int);
                }
                let key = project_key(&map.entries[i].0);
                if key_is_reserved(&key) {
                    proof {
                        lemma_pairs_err(mv, i + 1, key@);
                    }
                    return Err(ProjectError::ReservedKey(key));
                }
                proof {
                    let ghost mm = node.value->Object_0;
                    assert(decreases_to!(*node => node.value));
                    assert(decreases_to!(node.value => node.value->Object_0));
                    assert(decreases_to!(mm => mm.entries));
                    assert(decreases_to!(mm.entries => mm.entries@));
                    assert(decreases_to!(mm.entries@ => mm.entries@[i as int]));
                    assert(decreases_to!(mm.entries@[i as int] => mm.entries@[i as int].1));
                    assert(decreases_to!(*node => map.entries@[i as int].1));
                }
                match project_node(&map.entries[i].1) {
                    Ok(j) => {
                        json_insert(&mut out, key, j);
                    },
                    Err(e) => {
                        proof {
                            let ProjectError::ReservedKey(k) = e;
                            lemma_pairs_err(mv, i + 1, k@);
                        }
                        return Err(e);
                    },
                }
                i = i + 1;
            }
            assert(mv.take(map.entries.len() as int) =~= mv);
            JsonValue::Object(out)
        },
    };
    Ok(wrap_exec(node, value))
}

/// The key a stored key projects to: without the `~` of a semantic key.
fn project_key(k: &String) -> (r: String)
    ensures
        r@ == projected_key(k@),
{
    let v = crate::text::chars_of(k.as_str());
    if v.len() > 0 && v[0] == '~' {
        assert(v@.subrange(1, v.len() as int) =~= k@.skip(1));
        crate::text::string_of(&v, 1, v.len())
    } else {
        k.clone()
    }
}

fn key_is_reserved(k: &String) -> (r: bool)
    ensures
        r == (k@.len() > 0 && k@[0] == '$'),
{
    let v = crate::text::chars_of(k.as_str());
    v.len() > 0 && v[0] == '$'
}

impl CsonDocument {
    /// Projects this document to JSON: the projection of its root node.
    pub fn project(&self) -> (r: Result<JsonValue, ProjectError>)
        ensures
            match r {
                Ok(j) => project_node_spec(self@.root) == Ok::<SJson, Seq<char>>(j@),
                Err(ProjectError::ReservedKey(k)) => project_node_spec(self@.root) == Err::<
                    SJson,
                    Seq<char>,
                >(k@),
            },
    {
        project_node(&self.root)
    }
}

/// What `format!("{:?}", s)` writes for a string: the string quoted, with
/// Rust's debug escapes.
pub uninterp spec fn debug_quoted(s: Seq<char>) -> Seq<char>;

/// Calls `<str as Debug>::fmt` through `format!("{:?}")`. Trusted: the result
/// is the named `debug_quoted(s)`; its escape rules are not stated.
#[verifier::external_body]
fn debug_string(s: &str) -> (r: String)
    ensures
        r@ == debug_quoted(s@),
{
    format!("{:?}", s)
}

impl ProjectError {
    /// The message of the error (its `Display`):
    /// `Key "<key>" uses the reserved '$' prefix`.
    pub fn message(&self) -> (r: String)
        ensures
            match self {
                ProjectError::ReservedKey(k) => r@ == "Key "@ + debug_quoted(k@)
                    + " uses the reserved '$' prefix"@,
            },
    {
        match self {
            ProjectError::ReservedKey(k) => {
                let mut r = string_of_seq_str("Key ");
                let d = debug_string(k.as_str());
                r.append(d.as_str());
                r.append(" uses the reserved '$' prefix");
                r
            },
        }
    }
}

} // verus!
