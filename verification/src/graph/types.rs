//! Values, nodes and edges.

use crate::float::{float_equal, Float};
use crate::text::{copy_str, str_equal};
use vstd::prelude::*;

verus! {

pub type NodeId = u64;

pub type EdgeId = u64;

/// A property value.
#[derive(Debug)]
pub enum Value {
    Null,
    Bool(bool),
    Int(i64),
    Float(Float),
    String(String),
}

/// A property value, as a mathematical value.
pub enum Val {
    Null,
    Bool(bool),
    Int(i64),
    Float(u64),
    Str(Seq<char>),
}

impl View for Value {
    type V = Val;

    open spec fn view(&self) -> Val {
        match self {
            Value::Null => Val::Null,
            Value::Bool(b) => Val::Bool(*b),
            Value::Int(i) => Val::Int(*i),
            Value::Float(f) => Val::Float(f.bits),
            Value::String(s) => Val::Str(s@),
        }
    }
}

/// Whether two values are equal: of one type, and equal as that type says.
pub open spec fn val_equal(a: Val, b: Val) -> bool {
    match (a, b) {
        (Val::Null, Val::Null) => true,
        (Val::Bool(x), Val::Bool(y)) => x == y,
        (Val::Int(x), Val::Int(y)) => x == y,
        (Val::Float(x), Val::Float(y)) => float_equal(x, y),
        (Val::Str(x), Val::Str(y)) => x == y,
        _ => false,
    }
}

impl PartialEq for Value {
    fn eq(&self, other: &Self) -> (r: bool) {
        match (self, other) {
            (Value::Null, Value::Null) => true,
            (Value::Bool(x), Value::Bool(y)) => *x == *y,
            (Value::Int(x), Value::Int(y)) => *x == *y,
            (Value::Float(x), Value::Float(y)) => *x == *y,
            (Value::String(x), Value::String(y)) => str_equal(x.as_str(), y.as_str()),
            _ => false,
        }
    }
}

impl vstd::std_specs::cmp::PartialEqSpecImpl for Value {
    open spec fn obeys_eq_spec() -> bool {
        true
    }

    open spec fn eq_spec(&self, other: &Self) -> bool {
        val_equal(self@, other@)
    }
}

impl Clone for Value {
    fn clone(&self) -> (r: Self)
        ensures
            r@ == self@,
    {
        match self {
            Value::Null => Value::Null,
            Value::Bool(b) => Value::Bool(*b),
            Value::Int(i) => Value::Int(*i),
            Value::Float(f) => Value::Float(*f),
            Value::String(s) => Value::String(copy_str(s.as_str())),
        }
    }
}

/// The direction of an edge, seen from one of its nodes.
#[derive(Debug, Clone, Copy, PartialEq, Eq, Structural)]
pub enum Direction {
    Out,
    In,
}

/// Properties by name, in the order in which the names were first set.
pub type Props = Seq<(Seq<char>, Val)>;

/// Where a name stands among properties, or their number where it does not.
pub open spec fn prop_index(ps: Props, key: Seq<char>) -> int
    decreases ps.len(),
{
    if ps.len() == 0 || ps[0].0 == key {
        0
    } else {
        1 + prop_index(ps.drop_first(), key)
    }
}

/// The value of a property.
pub open spec fn prop_get(ps: Props, key: Seq<char>) -> Option<Val> {
    let i = prop_index(ps, key);
    if i < ps.len() {
        Some(ps[i].1)
    } else {
        None
    }
}

/// The properties with one of them set.
pub open spec fn prop_set(ps: Props, key: Seq<char>, v: Val) -> Props {
    let i = prop_index(ps, key);
    if i < ps.len() {
        ps.update(i, (key, v))
    } else {
        ps.push((key, v))
    }
}

/// Whether no name occurs twice.
pub open spec fn props_ok(ps: Props) -> bool {
    forall|i: int, j: int| 0 <= i < j < ps.len() ==> (#[trigger] ps[i]).0 != (#[trigger] ps[j]).0
}

pub proof fn lemma_prop_index(ps: Props, key: Seq<char>)
    ensures
        0 <= prop_index(ps, key) <= ps.len(),
        forall|j: int| 0 <= j < prop_index(ps, key) ==> (#[trigger] ps[j]).0 != key,
        prop_index(ps, key) < ps.len() ==> ps[prop_index(ps, key)].0 == key,
    decreases ps.len(),
{
    if ps.len() > 0 && ps[0].0 != key {
        lemma_prop_index(ps.drop_first(), key);
        assert forall|j: int| 0 <= j < prop_index(ps, key) implies (#[trigger] ps[j]).0 != key by {
            if j > 0 {
                assert(ps.drop_first()[j - 1] == ps[j]);
            }
        }
    }
}

pub proof fn lemma_prop_index_unique(ps: Props, key: Seq<char>, i: int)
    requires
        0 <= i <= ps.len(),
        forall|j: int| 0 <= j < i ==> (#[trigger] ps[j]).0 != key,
        i < ps.len() ==> ps[i].0 == key,
    ensures
        prop_index(ps, key) == i,
{
    lemma_prop_index(ps, key);
    let b = prop_index(ps, key);
    if b < i {
        assert(ps[b].0 != key);
    } else if i < b {
        assert(ps[i].0 != key);
    }
}

/// Where no name occurs twice, a name has a value exactly where the two stand
/// together among the properties.
pub proof fn lemma_prop_get(ps: Props, key: Seq<char>, v: Val)
    requires
        props_ok(ps),
    ensures
        prop_get(ps, key) == Some(v) <==> ps.contains((key, v)),
{
    lemma_prop_index(ps, key);
    let i = prop_index(ps, key);
    if ps.contains((key, v)) {
        let j = ps.index_of((key, v));
        assert(ps[j].0 == key);
        if i < j {
            assert(ps[i].0 != ps[j].0);
        }
        if j < i {
            assert(ps[j].0 != key);
        }
    }
    if i < ps.len() && ps[i].1 == v {
        assert(ps[i] == (key, v));
    }
}

/// Setting a property keeps the names apart, answers with the new value for
/// the name, and with what it was for every other.
pub proof fn lemma_prop_set(ps: Props, key: Seq<char>, v: Val, other: Seq<char>)
    requires
        props_ok(ps),
    ensures
        props_ok(prop_set(ps, key, v)),
        prop_get(prop_set(ps, key, v), key) == Some(v),
        other != key ==> prop_get(prop_set(ps, key, v), other) == prop_get(ps, other),
{
    let i = prop_index(ps, key);
    let r = prop_set(ps, key, v);
    lemma_prop_index(ps, key);
    lemma_prop_index_unique(r, key, i);
    if other != key {
        let o = prop_index(ps, other);
        lemma_prop_index(ps, other);
        if o < ps.len() {
            lemma_prop_index_unique(r, other, o);
        } else {
            lemma_prop_index_unique(r, other, r.len() as int);
        }
    }
}

/// Properties of a node or edge: values by name.
#[derive(Debug)]
pub struct Properties {
    entries: Vec<(String, Value)>,
}

impl View for Properties {
    type V = Props;

    closed spec fn view(&self) -> Props {
        Seq::new(self.entries@.len(), |i: int| (self.entries@[i].0@, self.entries@[i].1@))
    }
}

impl Properties {
    /// No properties.
    pub fn new() -> (r: Self)
        ensures
            r@ == Seq::<(Seq<char>, Val)>::empty(),
    {
        let r = Properties { entries: Vec::new() };
        assert(r@ =~= Seq::<(Seq<char>, Val)>::empty());
        r
    }

    /// The number of properties.
    pub fn len(&self) -> (r: usize)
        ensures
            r == self@.len(),
    {
        self.entries.len()
    }

    /// The name of property `i`.
    pub fn name(&self, i: usize) -> (r: &str)
        requires
            i < self@.len(),
        ensures
            r@ == self@[i as int].0,
    {
        self.entries[i].0.as_str()
    }

    /// The value of property `i`.
    pub fn value(&self, i: usize) -> (r: &Value)
        requires
            i < self@.len(),
        ensures
            r@ == self@[i as int].1,
    {
        &self.entries[i].1
    }

    fn position(&self, key: &str) -> (r: usize)
        ensures
            r == prop_index(self@, key@),
            r <= self@.len(),
    {
        let mut i: usize = 0;
        while i < self.entries.len()
            invariant
                i <= self.entries@.len(),
                forall|j: int| 0 <= j < i ==> (#[trigger] self@[j]).0 != key@,
            decreases self.entries@.len() - i,
        {
            if str_equal(self.entries[i].0.as_str(), key) {
                proof {
                    lemma_prop_index_unique(self@, key@, i as int);
                }
                return i;
            }
            i = i + 1;
        }
        proof {
            lemma_prop_index_unique(self@, key@, i as int);
        }
        i
    }

    /// The value of a property, if it is there.
    pub fn get(&self, key: &str) -> (r: Option<&Value>)
        ensures
            match r {
                Some(v) => prop_get(self@, key@) == Some(v@),
                None => prop_get(self@, key@) is None,
            },
    {
        let i: usize = self.position(key);
        if i < self.entries.len() {
            Some(&self.entries[i].1)
        } else {
            None
        }
    }

    /// Sets a property.
    pub fn insert(&mut self, key: String, value: Value)
        ensures
            final(self)@ == prop_set(old(self)@, key@, value@),
    {
        let ghost before = self@;
        let ghost k = key@;
        let ghost v = value@;
        let i: usize = self.position(key.as_str());
        if i < self.entries.len() {
            self.entries[i] = (key, value);
            assert(self@ =~= before.update(i as int, (k, v)));
        } else {
            self.entries.push((key, value));
            assert(self@ =~= before.push((k, v)));
        }
    }
}

impl Clone for Properties {
    fn clone(&self) -> (r: Self)
        ensures
            r@ == self@,
    {
        let mut entries: Vec<(String, Value)> = Vec::new();
        let mut i: usize = 0;
        while i < self.entries.len()
            invariant
                i <= self.entries@.len(),
                entries@.len() == i,
                forall|j: int|
                    0 <= j < i ==> (#[trigger] entries@[j]).0@ == self.entries@[j].0@
                        && entries@[j].1@ == self.entries@[j].1@,
            decreases self.entries@.len() - i,
        {
            entries.push((copy_str(self.entries[i].0.as_str()), self.entries[i].1.clone()));
            i = i + 1;
        }
        let r = Properties { entries };
        assert(r@ =~= self@);
        r
    }
}

/// What is stored of a node.
#[derive(Debug)]
pub struct NodeRecord {
    pub label: String,
    pub props: Properties,
}

/// What is stored of an edge.
#[derive(Debug)]
pub struct EdgeRecord {
    pub src: NodeId,
    pub dst: NodeId,
    pub edge_type: String,
    pub props: Properties,
}

/// What is stored of a node, as a value.
pub struct NodeRec {
    pub label: Seq<char>,
    pub props: Props,
}

/// What is stored of an edge, as a value.
pub struct EdgeRec {
    pub src: u64,
    pub dst: u64,
    pub edge_type: Seq<char>,
    pub props: Props,
}

impl View for NodeRecord {
    type V = NodeRec;

    open spec fn view(&self) -> NodeRec {
        NodeRec { label: self.label@, props: self.props@ }
    }
}

impl View for EdgeRecord {
    type V = EdgeRec;

    open spec fn view(&self) -> EdgeRec {
        EdgeRec {
            src: self.src,
            dst: self.dst,
            edge_type: self.edge_type@,
            props: self.props@,
        }
    }
}

/// A node of the graph.
#[derive(Debug)]
pub struct Node {
    pub id: NodeId,
    pub label: String,
    pub properties: Properties,
}

/// An edge of the graph.
#[derive(Debug)]
pub struct Edge {
    pub id: EdgeId,
    pub src: NodeId,
    pub dst: NodeId,
    pub edge_type: String,
    pub properties: Properties,
}

/// A node, as a value.
pub struct NodeVal {
    pub id: u64,
    pub label: Seq<char>,
    pub props: Props,
}

/// An edge, as a value.
pub struct EdgeVal {
    pub id: u64,
    pub src: u64,
    pub dst: u64,
    pub edge_type: Seq<char>,
    pub props: Props,
}

impl View for Node {
    type V = NodeVal;

    open spec fn view(&self) -> NodeVal {
        NodeVal { id: self.id, label: self.label@, props: self.properties@ }
    }
}

impl View for Edge {
    type V = EdgeVal;

    open spec fn view(&self) -> EdgeVal {
        EdgeVal {
            id: self.id,
            src: self.src,
            dst: self.dst,
            edge_type: self.edge_type@,
            props: self.properties@,
        }
    }
}

impl Clone for Node {
    fn clone(&self) -> (r: Self)
        ensures
            r@ == self@,
    {
        Node {
            id: self.id,
            label: copy_str(self.label.as_str()),
            properties: self.properties.clone(),
        }
    }
}

impl Clone for Edge {
    fn clone(&self) -> (r: Self)
        ensures
            r@ == self@,
    {
        Edge {
            id: self.id,
            src: self.src,
            dst: self.dst,
            edge_type: copy_str(self.edge_type.as_str()),
            properties: self.properties.clone(),
        }
    }
}

} // verus!
