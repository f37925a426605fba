//! The statements of the query language.

use crate::float::{float_equal, Float};
use crate::text::{str_equal, texts};
use vstd::prelude::*;

verus! {

/// A statement.
#[derive(Debug, PartialEq)]
pub enum Statement {
    Match(MatchClause),
    Create(CreateClause),
    Merge(MergeClause),
}

/// `MATCH` with what follows it.
#[derive(Debug, PartialEq)]
pub struct MatchClause {
    pub pattern: Pattern,
    pub where_clause: Option<Expr>,
    pub return_clause: Option<ReturnClause>,
    pub delete_clause: Option<Vec<String>>,
}

/// `CREATE`.
#[derive(Debug, PartialEq)]
pub struct CreateClause {
    pub pattern: Pattern,
}

/// `MERGE`.
#[derive(Debug, PartialEq)]
pub struct MergeClause {
    pub pattern: NodePattern,
}

/// `RETURN`.
#[derive(Debug, PartialEq)]
pub struct ReturnClause {
    pub items: Vec<ReturnItem>,
    pub limit: Option<u64>,
}

/// An item of `RETURN`.
#[derive(Debug, PartialEq)]
pub enum ReturnItem {
    Variable(String),
    Property(String, String),
    FunctionCall(String, Box<ReturnItem>),
    Alias(Box<ReturnItem>, String),
}

/// A path: nodes with edges between them.
#[derive(Debug, PartialEq)]
pub struct Pattern {
    pub elements: Vec<PatternElement>,
}

/// An element of a path.
#[derive(Debug, PartialEq)]
pub enum PatternElement {
    Node(NodePattern),
    Edge(EdgePattern),
}

/// A node of a path.
#[derive(Debug, PartialEq)]
pub struct NodePattern {
    pub variable: Option<String>,
    pub label: Option<String>,
    pub properties: ExprMap,
}

/// An edge of a path.
#[derive(Debug, PartialEq)]
pub struct EdgePattern {
    pub variable: Option<String>,
    pub edge_type: Option<String>,
    pub direction: EdgeDirection,
}

/// The direction of an edge of a path.
#[derive(Debug, Clone, Copy, PartialEq, Eq, Structural)]
pub enum EdgeDirection {
    Right,
    Left,
    Both,
}

/// An expression.
#[derive(Debug)]
pub enum Expr {
    Property(String, String),
    Literal(LiteralValue),
    Comparison(Box<Expr>, CmpOp, Box<Expr>),
    And(Box<Expr>, Box<Expr>),
    Or(Box<Expr>, Box<Expr>),
    Not(Box<Expr>),
}

/// A comparison operator.
#[derive(Debug, Clone, Copy, PartialEq, Eq, Structural)]
pub enum CmpOp {
    Eq,
    Neq,
    Lt,
    Gt,
    Lte,
    Gte,
}

/// A literal.
#[derive(Debug, PartialEq)]
pub enum LiteralValue {
    Int(i64),
    Float(Float),
    String(String),
    Bool(bool),
    Null,
}

// ---------------------------------------------------------------------------
// Statements as values
// ---------------------------------------------------------------------------

/// A literal, as a value.
pub enum Lit {
    Int(i64),
    Float(u64),
    Str(Seq<char>),
    Bool(bool),
    Null,
}

/// An expression, as a value.
pub enum Ex {
    Property(Seq<char>, Seq<char>),
    Literal(Lit),
    Comparison(Box<Ex>, CmpOp, Box<Ex>),
    And(Box<Ex>, Box<Ex>),
    Or(Box<Ex>, Box<Ex>),
    Not(Box<Ex>),
}

/// Expressions by name, in the order in which the names were first set.
pub type Exs = Seq<(Seq<char>, Ex)>;

/// A node of a path, as a value.
pub struct NodePat {
    pub variable: Option<Seq<char>>,
    pub label: Option<Seq<char>>,
    pub properties: Exs,
}

/// An edge of a path, as a value.
pub struct EdgePat {
    pub variable: Option<Seq<char>>,
    pub edge_type: Option<Seq<char>>,
    pub direction: EdgeDirection,
}

/// An element of a path, as a value.
pub enum Elem {
    Node(NodePat),
    Edge(EdgePat),
}

/// An item of `RETURN`, as a value.
pub enum Item {
    Variable(Seq<char>),
    Property(Seq<char>, Seq<char>),
    FunctionCall(Seq<char>, Box<Item>),
    Alias(Box<Item>, Seq<char>),
}

/// `RETURN`, as a value.
pub struct Ret {
    pub items: Seq<Item>,
    pub limit: Option<u64>,
}

/// `MATCH`, as a value.
pub struct MatchStmt {
    pub pattern: Seq<Elem>,
    pub where_clause: Option<Ex>,
    pub return_clause: Option<Ret>,
    pub delete_clause: Option<Seq<Seq<char>>>,
}

/// A statement, as a value.
pub enum Stmt {
    Match(MatchStmt),
    Create(Seq<Elem>),
    Merge(NodePat),
}

/// A text that may be missing, as a value.
pub open spec fn opt_string(s: Option<String>) -> Option<Seq<char>> {
    match s {
        Some(t) => Some(t@),
        None => None,
    }
}

impl View for LiteralValue {
    type V = Lit;

    open spec fn view(&self) -> Lit {
        match self {
            LiteralValue::Int(i) => Lit::Int(*i),
            LiteralValue::Float(f) => Lit::Float(f.bits),
            LiteralValue::String(s) => Lit::Str(s@),
            LiteralValue::Bool(b) => Lit::Bool(*b),
            LiteralValue::Null => Lit::Null,
        }
    }
}

/// An expression, as a value.
pub open spec fn expr_view(e: Expr) -> Ex
    decreases e,
{
    match e {
        Expr::Property(v, p) => Ex::Property(v@, p@),
        Expr::Literal(l) => Ex::Literal(l@),
        Expr::Comparison(a, op, b) => Ex::Comparison(
            Box::new(expr_view(*a)),
            op,
            Box::new(expr_view(*b)),
        ),
        Expr::And(a, b) => Ex::And(Box::new(expr_view(*a)), Box::new(expr_view(*b))),
        Expr::Or(a, b) => Ex::Or(Box::new(expr_view(*a)), Box::new(expr_view(*b))),
        Expr::Not(a) => Ex::Not(Box::new(expr_view(*a))),
    }
}

impl View for Expr {
    type V = Ex;

    open spec fn view(&self) -> Ex {
        expr_view(*self)
    }
}

/// An item of `RETURN`, as a value.
pub open spec fn item_view(i: ReturnItem) -> Item
    decreases i,
{
    match i {
        ReturnItem::Variable(v) => Item::Variable(v@),
        ReturnItem::Property(v, p) => Item::Property(v@, p@),
        ReturnItem::FunctionCall(f, a) => Item::FunctionCall(f@, Box::new(item_view(*a))),
        ReturnItem::Alias(a, n) => Item::Alias(Box::new(item_view(*a)), n@),
    }
}

impl View for ReturnItem {
    type V = Item;

    open spec fn view(&self) -> Item {
        item_view(*self)
    }
}

/// Items of `RETURN`, as values.
pub open spec fn items_view(v: Seq<ReturnItem>) -> Seq<Item> {
    Seq::new(v.len(), |i: int| v[i]@)
}

impl View for ReturnClause {
    type V = Ret;

    open spec fn view(&self) -> Ret {
        Ret { items: items_view(self.items@), limit: self.limit }
    }
}

impl View for NodePattern {
    type V = NodePat;

    open spec fn view(&self) -> NodePat {
        NodePat {
            variable: opt_string(self.variable),
            label: opt_string(self.label),
            properties: self.properties@,
        }
    }
}

impl View for EdgePattern {
    type V = EdgePat;

    open spec fn view(&self) -> EdgePat {
        EdgePat {
            variable: opt_string(self.variable),
            edge_type: opt_string(self.edge_type),
            direction: self.direction,
        }
    }
}

impl View for PatternElement {
    type V = Elem;

    open spec fn view(&self) -> Elem {
        match self {
            PatternElement::Node(n) => Elem::Node(n@),
            PatternElement::Edge(e) => Elem::Edge(e@),
        }
    }
}

/// Elements of a path, as values.
pub open spec fn elems_view(v: Seq<PatternElement>) -> Seq<Elem> {
    Seq::new(v.len(), |i: int| v[i]@)
}

impl View for Pattern {
    type V = Seq<Elem>;

    open spec fn view(&self) -> Seq<Elem> {
        elems_view(self.elements@)
    }
}

impl View for MatchClause {
    type V = MatchStmt;

    open spec fn view(&self) -> MatchStmt {
        MatchStmt {
            pattern: self.pattern@,
            where_clause: match self.where_clause {
                Some(e) => Some(e@),
                None => None,
            },
            return_clause: match self.return_clause {
                Some(r) => Some(r@),
                None => None,
            },
            delete_clause: match self.delete_clause {
                Some(d) => Some(texts(d@)),
                None => None,
            },
        }
    }
}

impl View for Statement {
    type V = Stmt;

    open spec fn view(&self) -> Stmt {
        match self {
            Statement::Match(m) => Stmt::Match(m@),
            Statement::Create(c) => Stmt::Create(c.pattern@),
            Statement::Merge(m) => Stmt::Merge(m.pattern@),
        }
    }
}

/// The number of nodes and edges that a statement creates at most.
pub open spec fn stmt_width(s: Stmt) -> nat {
    match s {
        Stmt::Create(path) => path.len(),
        Stmt::Merge(_) => 1,
        Stmt::Match(_) => 0,
    }
}

impl Statement {
    /// The number of elements that a statement creates at most.
    pub open spec fn width(&self) -> nat {
        match self {
            Statement::Create(c) => c.pattern.elements@.len(),
            Statement::Merge(_) => 1,
            Statement::Match(_) => 0,
        }
    }
}

// ---------------------------------------------------------------------------
// Equality of expressions
// ---------------------------------------------------------------------------

/// Whether two literals are equal; numbers with a point as such numbers are.
pub open spec fn lit_equal(a: Lit, b: Lit) -> bool {
    match (a, b) {
        (Lit::Int(x), Lit::Int(y)) => x == y,
        (Lit::Float(x), Lit::Float(y)) => float_equal(x, y),
        (Lit::Str(x), Lit::Str(y)) => x == y,
        (Lit::Bool(x), Lit::Bool(y)) => x == y,
        (Lit::Null, Lit::Null) => true,
        _ => false,
    }
}

/// Whether two expressions are equal.
pub open spec fn ex_equal(a: Ex, b: Ex) -> bool
    decreases a,
{
    match (a, b) {
        (Ex::Property(v, p), Ex::Property(w, q)) => v == w && p == q,
        (Ex::Literal(x), Ex::Literal(y)) => lit_equal(x, y),
        (Ex::Comparison(x, o, y), Ex::Comparison(x2, o2, y2)) => o == o2 && ex_equal(*x, *x2)
            && ex_equal(*y, *y2),
        (Ex::And(x, y), Ex::And(x2, y2)) => ex_equal(*x, *x2) && ex_equal(*y, *y2),
        (Ex::Or(x, y), Ex::Or(x2, y2)) => ex_equal(*x, *x2) && ex_equal(*y, *y2),
        (Ex::Not(x), Ex::Not(x2)) => ex_equal(*x, *x2),
        _ => false,
    }
}

fn equal_literals(a: &LiteralValue, b: &LiteralValue) -> (r: bool)
    ensures
        r == lit_equal(a@, b@),
{
    match (a, b) {
        (LiteralValue::Int(x), LiteralValue::Int(y)) => *x == *y,
        (LiteralValue::Float(x), LiteralValue::Float(y)) => *x == *y,
        (LiteralValue::String(x), LiteralValue::String(y)) => str_equal(x.as_str(), y.as_str()),
        (LiteralValue::Bool(x), LiteralValue::Bool(y)) => *x == *y,
        (LiteralValue::Null, LiteralValue::Null) => true,
        _ => false,
    }
}

fn equal_exprs(a: &Expr, b: &Expr) -> (r: bool)
    ensures
        r == ex_equal(a@, b@),
    decreases *a,
{
    match (a, b) {
        (Expr::Property(v, p), Expr::Property(w, q)) => str_equal(v.as_str(), w.as_str())
            && str_equal(p.as_str(), q.as_str()),
        (Expr::Literal(x), Expr::Literal(y)) => equal_literals(x, y),
        (Expr::Comparison(x, o, y), Expr::Comparison(x2, o2, y2)) => *o == *o2 && equal_exprs(
            &**x,
            &**x2,
        ) && equal_exprs(&**y, &**y2),
        (Expr::And(x, y), Expr::And(x2, y2)) => equal_exprs(&**x, &**x2) && equal_exprs(
            &**y,
            &**y2,
        ),
        (Expr::Or(x, y), Expr::Or(x2, y2)) => equal_exprs(&**x, &**x2) && equal_exprs(&**y, &**y2),
        (Expr::Not(x), Expr::Not(x2)) => equal_exprs(&**x, &**x2),
        _ => false,
    }
}

impl PartialEq for Expr {
    fn eq(&self, other: &Self) -> (r: bool) {
        equal_exprs(self, other)
    }
}

impl vstd::std_specs::cmp::PartialEqSpecImpl for Expr {
    open spec fn obeys_eq_spec() -> bool {
        true
    }

    open spec fn eq_spec(&self, other: &Self) -> bool {
        ex_equal(self@, other@)
    }
}

// ---------------------------------------------------------------------------
// Expressions by name
// ---------------------------------------------------------------------------

/// The position of a name, or the number of names.
pub open spec fn exs_index(es: Exs, key: Seq<char>) -> int
    decreases es.len(),
{
    if es.len() == 0 {
        0
    } else {
        let i = exs_index(es.drop_last(), key);
        if i < es.len() - 1 || es.last().0 == key {
            i
        } else {
            es.len() as int
        }
    }
}

/// The expression of a name.
pub open spec fn exs_get(es: Exs, key: Seq<char>) -> Option<Ex> {
    let i = exs_index(es, key);
    if i < es.len() {
        Some(es[i].1)
    } else {
        None
    }
}

/// The expressions after one was set.
pub open spec fn exs_set(es: Exs, key: Seq<char>, e: Ex) -> Exs {
    let i = exs_index(es, key);
    if i < es.len() {
        es.update(i, (key, e))
    } else {
        es.push((key, e))
    }
}

pub proof fn lemma_exs_index(es: Exs, key: Seq<char>, i: int)
    requires
        0 <= i <= es.len(),
        forall|j: int| 0 <= j < i ==> (#[trigger] es[j]).0 != key,
        i < es.len() ==> es[i].0 == key,
    ensures
        exs_index(es, key) == i,
    decreases es.len(),
{
    if es.len() > 0 {
        let d = es.drop_last();
        let n = es.len() - 1;
        if i <= n {
            assert forall|j: int| 0 <= j < i implies (#[trigger] d[j]).0 != key by {
                assert(es[j].0 != key);
            }
            lemma_exs_index(d, key, i);
        } else {
            assert forall|j: int| 0 <= j < n implies (#[trigger] d[j]).0 != key by {
                assert(es[j].0 != key);
            }
            lemma_exs_index(d, key, n);
            assert(es[n].0 != key);
        }
    }
}

/// Expressions by name.
#[derive(Debug)]
pub struct ExprMap {
    entries: Vec<(String, Expr)>,
}

impl View for ExprMap {
    type V = Exs;

    closed spec fn view(&self) -> Exs {
        Seq::new(self.entries@.len(), |i: int| (self.entries@[i].0@, self.entries@[i].1@))
    }
}

impl ExprMap {
    /// No expressions.
    pub fn new() -> (r: Self)
        ensures
            r@ == Seq::<(Seq<char>, Ex)>::empty(),
    {
        let r = ExprMap { entries: Vec::new() };
        assert(r@ =~= Seq::<(Seq<char>, Ex)>::empty());
        r
    }

    /// The number of names.
    pub fn len(&self) -> (r: usize)
        ensures
            r == self@.len(),
    {
        self.entries.len()
    }

    /// The name at position `i`.
    pub fn name(&self, i: usize) -> (r: &str)
        requires
            i < self@.len(),
        ensures
            r@ == self@[i as int].0,
    {
        self.entries[i].0.as_str()
    }

    /// The expression at position `i`.
    pub fn expr(&self, i: usize) -> (r: &Expr)
        requires
            i < self@.len(),
        ensures
            r@ == self@[i as int].1,
    {
        &self.entries[i].1
    }

    fn position(&self, key: &str) -> (r: usize)
        ensures
            r == exs_index(self@, key@),
            r <= self@.len(),
    {
        let mut i: usize = 0;
        while i < self.entries.len()
            invariant
                i <= self.entries@.len(),
                forall|j: int| 0 <= j < i ==> (#[trigger] self@[j]).0 != key@,
            decreases self.entries@.len() - i,
        {
            if str_equal(self.entries[i].0.as_str(), key) {
                proof {
                    lemma_exs_index(self@, key@, i as int);
                }
                return i;
            }
            i = i + 1;
        }
        proof {
            lemma_exs_index(self@, key@, i as int);
        }
        i
    }

    /// The expression of a name, if it is there.
    pub fn get(&self, key: &str) -> (r: Option<&Expr>)
        ensures
            match r {
                Some(e) => exs_get(self@, key@) == Some(e@),
                None => exs_get(self@, key@) is None,
            },
    {
        let i: usize = self.position(key);
        if i < self.entries.len() {
            Some(&self.entries[i].1)
        } else {
            None
        }
    }

    /// Sets the expression of a name.
    pub fn insert(&mut self, key: String, e: Expr)
        ensures
            final(self)@ == exs_set(old(self)@, key@, e@),
    {
        let ghost before = self@;
        let ghost k = key@;
        let ghost v = e@;
        let i: usize = self.position(key.as_str());
        if i < self.entries.len() {
            self.entries[i] = (key, e);
            assert(self@ =~= before.update(i as int, (k, v)));
        } else {
            self.entries.push((key, e));
            assert(self@ =~= before.push((k, v)));
        }
    }
}

/// Whether two sets of expressions by name are equal, whatever their order.
pub open spec fn exs_equal(a: Exs, b: Exs) -> bool {
    &&& a.len() == b.len()
    &&& forall|i: int|
        0 <= i < a.len() ==> match exs_get(b, (#[trigger] a[i]).0) {
            Some(e) => ex_equal(a[i].1, e),
            None => false,
        }
}

impl PartialEq for ExprMap {
    fn eq(&self, other: &Self) -> (r: bool) {
        if self.len() != other.len() {
            return false;
        }
        let mut i: usize = 0;
        while i < self.len()
            invariant
                i <= self@.len(),
                self@.len() == other@.len(),
                forall|j: int|
                    0 <= j < i ==> match exs_get(other@, (#[trigger] self@[j]).0) {
                        Some(e) => ex_equal(self@[j].1, e),
                        None => false,
                    },
            decreases self@.len() - i,
        {
            match other.get(self.name(i)) {
                Some(e) => {
                    if !equal_exprs(self.expr(i), e) {
                        assert(!exs_equal(self@, other@)) by {
                            assert(self@[i as int].0 == self@[i as int].0);
                        }
                        return false;
                    }
                },
                None => {
                    assert(!exs_equal(self@, other@)) by {
                        assert(self@[i as int].0 == self@[i as int].0);
                    }
                    return false;
                },
            }
            i = i + 1;
        }
        true
    }
}

impl vstd::std_specs::cmp::PartialEqSpecImpl for ExprMap {
    open spec fn obeys_eq_spec() -> bool {
        true
    }

    open spec fn eq_spec(&self, other: &Self) -> bool {
        exs_equal(self@, other@)
    }
}

} // verus!
