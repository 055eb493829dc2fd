//! The CSON node model: executable types and their mathematical views.
use vstd::prelude::*;

verus! {

/// A CSON value. Numbers keep the literal as written; every number a parser
/// produces is a literal that reads as a double (see `number`).
#[derive(Debug, PartialEq)]
pub enum CsonValue {
    String(String),
    Number(String),
    Boolean(bool),
    Null,
    Object(CsonMap),
    Array(Vec<CsonNode>),
    Synthesize(String),
}

/// A value together with its metadata: an optional confidence literal and the
/// annotations attached to it, in order.
#[derive(Debug, PartialEq)]
pub struct CsonNode {
    pub value: CsonValue,
    pub confidence: Option<String>,
    pub annotations: Vec<CsonAnnotation>,
}

/// `@name(args) { key: value, ... }`
#[derive(Debug, PartialEq)]
pub struct CsonAnnotation {
    pub name: String,
    pub args: Option<String>,
    pub properties: PropertyMap,
}

/// A parsed document: its declared format version and its root object node.
#[derive(Debug, PartialEq)]
pub struct CsonDocument {
    pub version: String,
    pub root: CsonNode,
}

/// A key as written: exact (bare or quoted) or semantic (`~"intent"`).
#[derive(Debug, PartialEq)]
pub enum CsonKey {
    Exact(String),
    Semantic(String),
}

/// The pairs of an object, in insertion order; no key occurs twice.
#[derive(Debug, PartialEq)]
pub struct CsonMap {
    pub entries: Vec<(String, CsonNode)>,
}

/// The string properties of an annotation, in insertion order; no key occurs twice.
#[derive(Debug, PartialEq)]
pub struct PropertyMap {
    pub entries: Vec<(String, String)>,
}

// ---------------------------------------------------------------------------
// Mathematical model
// ---------------------------------------------------------------------------

pub enum SValue {
    Str(Seq<char>),
    Number(Seq<char>),
    Boolean(bool),
    Null,
    Object(Seq<(Seq<char>, SNode)>),
    Array(Seq<SNode>),
    Synthesize(Seq<char>),
}

pub struct SNode {
    pub value: SValue,
    pub confidence: Option<Seq<char>>,
    pub annotations: Seq<SAnnotation>,
}

pub struct SAnnotation {
    pub name: Seq<char>,
    pub args: Option<Seq<char>>,
    pub properties: Seq<(Seq<char>, Seq<char>)>,
}

pub struct SDocument {
    pub version: Seq<char>,
    pub root: SNode,
}

pub enum SKey {
    Exact(Seq<char>),
    Semantic(Seq<char>),
}

/// The string a key is stored under in its object: a semantic key keeps its
/// `~` marker so that it stays distinct from an exact key of the same text.
pub open spec fn key_text(k: SKey) -> Seq<char> {
    match k {
        SKey::Exact(s) => s,
        SKey::Semantic(s) => seq!['~'] + s,
    }
}

/// Whether some entry of an association list has key `k`.
pub open spec fn has_key<V>(m: Seq<(Seq<char>, V)>, k: Seq<char>) -> bool {
    exists|i: int| 0 <= i < m.len() && #[trigger] m[i].0 == k
}

/// No key occurs twice in an association list.
pub open spec fn distinct_keys<V>(m: Seq<(Seq<char>, V)>) -> bool {
    forall|i: int, j: int| 0 <= i < m.len() && 0 <= j < m.len() && i != j ==> #[trigger] m[i].0 != #[trigger] m[j].0
}

/// The index of the first entry with key `k`, or -1.
pub open spec fn key_index<V>(m: Seq<(Seq<char>, V)>, k: Seq<char>) -> int
    decreases m.len(),
{
    if m.len() == 0 {
        -1
    } else if m[0].0 == k {
        0
    } else {
        let r = key_index(m.drop_first(), k);
        if r < 0 { -1 } else { r + 1 }
    }
}

pub proof fn lemma_key_index<V>(m: Seq<(Seq<char>, V)>, k: Seq<char>)
    ensures
        has_key(m, k) <==> key_index(m, k) >= 0,
        key_index(m, k) >= 0 ==> key_index(m, k) < m.len() && m[key_index(m, k)].0 == k,
        key_index(m, k) >= 0 ==> forall|j: int| 0 <= j < key_index(m, k) ==> m[j].0 != k,
        key_index(m, k) < 0 ==> forall|j: int| 0 <= j < m.len() ==> m[j].0 != k,
    decreases m.len(),
{
    if m.len() > 0 {
        lemma_key_index(m.drop_first(), k);
        if m[0].0 != k {
            assert forall|j: int| 1 <= j < m.len() implies m[j].0 == m.drop_first()[j - 1].0 by {}
            if has_key(m, k) {
                let i = choose|i: int| 0 <= i < m.len() && #[trigger] m[i].0 == k;
                assert(m.drop_first()[i - 1].0 == k);
            }
            if has_key(m.drop_first(), k) {
                let i = choose|i: int| 0 <= i < m.drop_first().len() && #[trigger] m.drop_first()[i].0 == k;
                assert(m[i + 1].0 == k);
            }
        } else {
            assert(m[0].0 == k);
        }
    }
}

/// `HashMap::insert` on an association list: replace the value in place when
/// the key is present, else append the pair.
pub open spec fn assoc_insert<V>(m: Seq<(Seq<char>, V)>, k: Seq<char>, v: V) -> Seq<(Seq<char>, V)> {
    let i = key_index(m, k);
    if i >= 0 {
        m.update(i, (k, v))
    } else {
        m.push((k, v))
    }
}

/// The value stored under `k`, if any.
pub open spec fn assoc_get<V>(m: Seq<(Seq<char>, V)>, k: Seq<char>) -> Option<V> {
    let i = key_index(m, k);
    if i >= 0 {
        Some(m[i].1)
    } else {
        None
    }
}

pub open spec fn node_view(n: CsonNode) -> SNode
    decreases n,
{
    SNode {
        value: value_view(n.value),
        confidence: opt_text(n.confidence),
        annotations: anns_view(n.annotations@),
    }
}

pub open spec fn anns_view(v: Seq<CsonAnnotation>) -> Seq<SAnnotation> {
    v.map_values(|a: CsonAnnotation| a@)
}

pub open spec fn opt_text(o: Option<String>) -> Option<Seq<char>> {
    match o {
        Some(t) => Some(t@),
        None => None,
    }
}

pub open spec fn value_view(v: CsonValue) -> SValue
    decreases v,
{
    match v {
        CsonValue::String(s) => SValue::Str(s@),
        CsonValue::Number(s) => SValue::Number(s@),
        CsonValue::Boolean(b) => SValue::Boolean(b),
        CsonValue::Null => SValue::Null,
        CsonValue::Object(m) => SValue::Object(entries_view(m.entries@)),
        CsonValue::Array(a) => SValue::Array(nodes_view(a@)),
        CsonValue::Synthesize(s) => SValue::Synthesize(s@),
    }
}

pub open spec fn nodes_view(s: Seq<CsonNode>) -> Seq<SNode>
    decreases s,
{
    if s.len() == 0 {
        Seq::empty()
    } else {
        nodes_view(s.drop_last()).push(node_view(s.last()))
    }
}

pub open spec fn entries_view(s: Seq<(String, CsonNode)>) -> Seq<(Seq<char>, SNode)>
    decreases s,
{
    if s.len() == 0 {
        Seq::empty()
    } else {
        entries_view(s.drop_last()).push((s.last().0@, node_view(s.last().1)))
    }
}

impl View for CsonAnnotation {
    type V = SAnnotation;

    open spec fn view(&self) -> SAnnotation {
        SAnnotation {
            name: self.name@,
            args: opt_text(self.args),
            properties: self.properties@,
        }
    }
}

impl View for PropertyMap {
    type V = Seq<(Seq<char>, Seq<char>)>;

    open spec fn view(&self) -> Seq<(Seq<char>, Seq<char>)> {
        self.entries@.map_values(|p: (String, String)| (p.0@, p.1@))
    }
}

impl View for CsonNode {
    type V = SNode;

    open spec fn view(&self) -> SNode {
        node_view(*self)
    }
}

impl View for CsonValue {
    type V = SValue;

    open spec fn view(&self) -> SValue {
        value_view(*self)
    }
}

impl View for CsonMap {
    type V = Seq<(Seq<char>, SNode)>;

    open spec fn view(&self) -> Seq<(Seq<char>, SNode)> {
        entries_view(self.entries@)
    }
}

impl View for CsonDocument {
    type V = SDocument;

    open spec fn view(&self) -> SDocument {
        SDocument { version: self.version@, root: self.root@ }
    }
}

impl View for CsonKey {
    type V = SKey;

    open spec fn view(&self) -> SKey {
        match self {
            CsonKey::Exact(s) => SKey::Exact(s@),
            CsonKey::Semantic(s) => SKey::Semantic(s@),
        }
    }
}

pub proof fn lemma_nodes_view(v: Seq<CsonNode>)
    ensures
        nodes_view(v).len() == v.len(),
        forall|i: int| 0 <= i < v.len() ==> #[trigger] nodes_view(v)[i] == node_view(v[i]),
    decreases v.len(),
{
    if v.len() > 0 {
        lemma_nodes_view(v.drop_last());
    }
}

pub proof fn lemma_entries_view(v: Seq<(String, CsonNode)>)
    ensures
        entries_view(v).len() == v.len(),
        forall|i: int|
            0 <= i < v.len() ==> #[trigger] entries_view(v)[i] == (v[i].0@, node_view(v[i].1)),
    decreases v.len(),
{
    if v.len() > 0 {
        lemma_entries_view(v.drop_last());
    }
}

/// The view of the list with one more node.
pub proof fn lemma_nodes_view_push(v: Seq<CsonNode>, n: CsonNode)
    ensures
        nodes_view(v.push(n)) == nodes_view(v).push(node_view(n)),
{
    assert(v.push(n).drop_last() =~= v);
}

pub proof fn lemma_entries_view_push(v: Seq<(String, CsonNode)>, e: (String, CsonNode))
    ensures
        entries_view(v.push(e)) == entries_view(v).push((e.0@, node_view(e.1))),
{
    assert(v.push(e).drop_last() =~= v);
}

pub proof fn lemma_entries_view_update(v: Seq<(String, CsonNode)>, i: int, e: (String, CsonNode))
    requires
        0 <= i < v.len(),
    ensures
        entries_view(v.update(i, e)) == entries_view(v).update(i, (e.0@, node_view(e.1))),
{
    lemma_entries_view(v);
    lemma_entries_view(v.update(i, e));
    assert(entries_view(v.update(i, e)) =~= entries_view(v).update(i, (e.0@, node_view(e.1))));
}

/// An exec search for the first entry with key `key`.
pub(crate) fn find_key<V>(entries: &Vec<(String, V)>, key: &String) -> (r: usize)
    ensures
        r <= entries.len(),
        forall|j: int| 0 <= j < r ==> entries@[j].0@ != key@,
        r < entries.len() ==> entries@[r as int].0@ == key@,
{
    let mut i: usize = 0;
    while i < entries.len()
        invariant
            i <= entries.len(),
            forall|j: int| 0 <= j < i ==> entries@[j].0@ != key@,
        decreases entries.len() - i,
    {
        if entries[i].0.eq(key) {
            return i;
        }
        i = i + 1;
    }
    i
}

/// The position of `key` among the pairs `entries`, if present.
pub fn entries_index_of(entries: &Vec<(String, CsonNode)>, key: &String) -> (r: Option<usize>)
    ensures
        match r {
            Some(i) => i < entries.len() && i < entries_view(entries@).len() && i as int == key_index(
                entries_view(entries@),
                key@,
            ),
            None => key_index(entries_view(entries@), key@) < 0,
        },
        r is Some <==> has_key(entries_view(entries@), key@),
{
    let ghost m = entries_view(entries@);
    proof {
        lemma_entries_view(entries@);
        lemma_key_index(m, key@);
    }
    let i = find_key(entries, key);
    proof {
        assert forall|j: int| 0 <= j < i implies m[j].0 != key@ by {
            assert(m[j] == (entries@[j].0@, node_view(entries@[j].1)));
        }
        if i < entries.len() {
            assert(m[i as int].0 == key@);
            if key_index(m, key@) < i {
                assert(m[key_index(m, key@)].0 == key@);
            }
        }
    }
    if i < entries.len() {
        Some(i)
    } else {
        None
    }
}

impl CsonMap {
    /// An empty object.
    pub fn new() -> (m: CsonMap)
        ensures
            m@ == Seq::<(Seq<char>, SNode)>::empty(),
    {
        CsonMap { entries: Vec::new() }
    }

    pub fn len(&self) -> (n: usize)
        ensures
            n == self@.len(),
    {
        proof {
            lemma_entries_view(self.entries@);
        }
        self.entries.len()
    }

    pub fn is_empty(&self) -> (b: bool)
        ensures
            b == (self@.len() == 0),
    {
        proof {
            lemma_entries_view(self.entries@);
        }
        self.entries.len() == 0
    }

    /// The position of `key` among the pairs, if present.
    pub fn index_of(&self, key: &String) -> (r: Option<usize>)
        ensures
            match r {
                Some(i) => i < self.entries.len() && i < self@.len() && i as int == key_index(
                    self@,
                    key@,
                ),
                None => key_index(self@, key@) < 0,
            },
            r is Some <==> has_key(self@, key@),
    {
        entries_index_of(&self.entries, key)
    }

    pub fn contains_key(&self, key: &str) -> (b: bool)
        ensures
            b == has_key(self@, key@),
    {
        let k = key.to_owned();
        self.index_of(&k).is_some()
    }

    /// The node stored under `key`.
    pub fn get(&self, key: &str) -> (r: Option<&CsonNode>)
        ensures
            match r {
                Some(n) => assoc_get(self@, key@) == Some(n@),
                None => assoc_get(self@, key@) is None,
            },
    {
        let k = key.to_owned();
        match self.index_of(&k) {
            Some(i) => {
                proof {
                    lemma_entries_view(self.entries@);
                    lemma_key_index(self@, key@);
                }
                Some(&self.entries[i].1)
            },
            None => None,
        }
    }

    /// Adds a pair whose key is not present yet.
    pub fn push_new(&mut self, key: String, node: CsonNode)
        ensures
            final(self)@ == old(self)@.push((key@, node@)),
    {
        proof {
            lemma_entries_view_push(self.entries@, (key, node));
        }
        self.entries.push((key, node));
    }

    /// `HashMap::insert`: stores `node` under `key`, in place of the node
    /// stored there before, which is returned.
    pub fn insert(&mut self, key: String, node: CsonNode) -> (prev: Option<CsonNode>)
        ensures
            final(self)@ == assoc_insert(old(self)@, key@, node@),
            match prev {
                Some(n) => assoc_get(old(self)@, key@) == Some(n@),
                None => assoc_get(old(self)@, key@) is None,
            },
    {
        match self.index_of(&key) {
            Some(i) => {
                proof {
                    lemma_entries_view(self.entries@);
                    lemma_key_index(self@, key@);
                    lemma_entries_view_update(self.entries@, i as int, (key, node));
                }
                let mut e = (key, node);
                self.entries.set_and_swap(i, &mut e);
                Some(e.1)
            },
            None => {
                proof {
                    lemma_entries_view_push(self.entries@, (key, node));
                }
                self.entries.push((key, node));
                None
            },
        }
    }
}

impl PropertyMap {
    pub fn new() -> (m: PropertyMap)
        ensures
            m@ == Seq::<(Seq<char>, Seq<char>)>::empty(),
    {
        let m = PropertyMap { entries: Vec::new() };
        assert(m@ =~= Seq::<(Seq<char>, Seq<char>)>::empty());
        m
    }

    pub fn len(&self) -> (n: usize)
        ensures
            n == self@.len(),
    {
        self.entries.len()
    }

    pub fn is_empty(&self) -> (b: bool)
        ensures
            b == (self@.len() == 0),
    {
        self.entries.len() == 0
    }

    pub fn index_of(&self, key: &String) -> (r: Option<usize>)
        ensures
            match r {
                Some(i) => i < self.entries.len() && i < self@.len() && i as int == key_index(
                    self@,
                    key@,
                ),
                None => key_index(self@, key@) < 0,
            },
            r is Some <==> has_key(self@, key@),
    {
        proof {
            lemma_key_index(self@, key@);
        }
        let i = find_key(&self.entries, key);
        proof {
            assert forall|j: int| 0 <= j < i implies self@[j].0 != key@ by {
                assert(self@[j] == (self.entries@[j].0@, self.entries@[j].1@));
            }
            if i < self.entries.len() {
                assert(self@[i as int].0 == key@);
                if key_index(self@, key@) < i {
                    assert(self@[key_index(self@, key@)].0 == key@);
                }
            }
        }
        if i < self.entries.len() {
            Some(i)
        } else {
            None
        }
    }

    pub fn contains_key(&self, key: &str) -> (b: bool)
        ensures
            b == has_key(self@, key@),
    {
        let k = key.to_owned();
        self.index_of(&k).is_some()
    }

    /// The value of property `key`.
    pub fn get(&self, key: &str) -> (r: Option<&String>)
        ensures
            match r {
                Some(v) => assoc_get(self@, key@) == Some(v@),
                None => assoc_get(self@, key@) is None,
            },
    {
        let k = key.to_owned();
        match self.index_of(&k) {
            Some(i) => {
                proof {
                    lemma_key_index(self@, key@);
                }
                Some(&self.entries[i].1)
            },
            None => None,
        }
    }

    /// `HashMap::insert`: sets property `key` to `value`.
    pub fn insert(&mut self, key: String, value: String)
        ensures
            final(self)@ == assoc_insert(old(self)@, key@, value@),
    {
        match self.index_of(&key) {
            Some(i) => {
                let ghost kv = (key@, value@);
                self.entries.set(i, (key, value));
                assert(self@ =~= old(self)@.update(i as int, kv));
            },
            None => {
                let ghost kv = (key@, value@);
                self.entries.push((key, value));
                assert(self@ =~= old(self)@.push(kv));
            },
        }
    }
}

impl CsonKey {
    /// The string the key is stored under in its object (`Display`): a
    /// semantic key keeps its `~` marker.
    pub fn to_string(&self) -> (r: String)
        ensures
            r@ == key_text(self@),
    {
        match self {
            CsonKey::Exact(s) => s.clone(),
            CsonKey::Semantic(s) => {
                let mut r = String::new();
                r.append("~");
                r.append(s.as_str());
                proof {
                    reveal_strlit("~");
                }
                assert(r@ =~= seq!['~'] + s@);
                r
            },
        }
    }
}

} // verus!
