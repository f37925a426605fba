//! What `RETURN` gives of the matches.

use crate::cypher::ast::{Ex, Item, Lit, MatchStmt};
use crate::cypher::conditions::{has_value, keeps, lemma_has_value, lemma_where_filters};
use crate::cypher::env::{Binding, EnvMap};
use crate::cypher::query::{
    aggregate, aggregate_row, any_aggregate, column, columns, expand, filtered, is_aggregate,
    item_value, limit_of, limited, row, rows, run_match, unaliased,
};
use crate::cypher::values::{edge_text, node_text};
use crate::graph::state::{edge_at, node_at, GraphState};
use crate::graph::types::Val;
use vstd::prelude::*;

verus! {

/// Whether `v` is the value of an item in a match: for a property what is
/// stored, or null where there is no such property, and for a variable the text
/// of what it stands for. An alias changes nothing.
pub open spec fn gives(g: GraphState, m: EnvMap, item: Item, v: Val) -> bool
    decreases item,
{
    match item {
        Item::Variable(x) => m.contains_key(x) && match m[x] {
            Binding::Node(id) => node_at(g, id) matches Ok(Some(n)) && v == Val::Str(node_text(n)),
            Binding::Edge(id) => edge_at(g, id) matches Ok(Some(e)) && v == Val::Str(edge_text(e)),
        },
        Item::Property(x, p) => m.contains_key(x) && match m[x] {
            Binding::Node(id) => node_at(g, id) matches Ok(Some(n)) && has_value(n.props, p, v),
            Binding::Edge(id) => edge_at(g, id) matches Ok(Some(e)) && has_value(e.props, p, v),
        },
        Item::Alias(a, _) => gives(g, m, *a, v),
        Item::FunctionCall(_, _) => false,
    }
}

/// The variable of an item.
pub open spec fn variable_of(item: Item) -> Seq<char>
    decreases item,
{
    match item {
        Item::Variable(x) => x,
        Item::Property(x, _) => x,
        Item::Alias(a, _) => variable_of(*a),
        Item::FunctionCall(_, a) => variable_of(*a),
    }
}

/// Whether an item is a variable or a property, under whatever aliases.
pub open spec fn is_plain(item: Item) -> bool
    decreases item,
{
    match item {
        Item::Variable(_) => true,
        Item::Property(_, _) => true,
        Item::Alias(a, _) => is_plain(*a),
        Item::FunctionCall(_, _) => false,
    }
}

/// Whether an item is `count`, under whatever aliases.
pub open spec fn is_count(item: Item) -> bool
    decreases item,
{
    match item {
        Item::Alias(a, _) => is_count(*a),
        Item::FunctionCall(f, _) => f == "count"@,
        _ => false,
    }
}

/// Whether a variable stands for something that is stored.
pub open spec fn at_hand(g: GraphState, m: EnvMap, x: Seq<char>) -> bool {
    m.contains_key(x) && match m[x] {
        Binding::Node(id) => node_at(g, id) is Ok && node_at(g, id)->Ok_0 is Some,
        Binding::Edge(id) => edge_at(g, id) is Ok && edge_at(g, id)->Ok_0 is Some,
    }
}

proof fn lemma_item(g: GraphState, m: EnvMap, item: Item)
    requires
        is_plain(item),
    ensures
        at_hand(g, m, variable_of(item)) ==> item_value(g, item, m) is Ok && gives(
            g,
            m,
            item,
            item_value(g, item, m)->Ok_0,
        ),
        !m.contains_key(variable_of(item)) ==> item_value(g, item, m) is Err,
    decreases item,
{
    match item {
        Item::Alias(a, _) => {
            lemma_item(g, m, *a);
        },
        Item::Property(x, p) => {
            if at_hand(g, m, x) {
                let v = item_value(g, item, m)->Ok_0;
                match m[x] {
                    Binding::Node(id) => {
                        lemma_has_value(node_at(g, id)->Ok_0->0.props, p, v);
                    },
                    Binding::Edge(id) => {
                        lemma_has_value(edge_at(g, id)->Ok_0->0.props, p, v);
                    },
                }
            }
        },
        _ => {},
    }
}

/// The name of a column: that of the variable, that of the variable and the
/// property with a point between them, or the alias.
pub proof fn lemma_column_names(x: Seq<char>, p: Seq<char>, item: Item, alias: Seq<char>)
    ensures
        column(Item::Variable(x)) == x,
        column(Item::Property(x, p)) == x + "."@ + p,
        column(Item::Alias(Box::new(item), alias)) == alias,
        column(Item::FunctionCall("count"@, Box::new(Item::Variable(x)))) == "count"@ + "("@ + x
            + ")"@,
        column(Item::FunctionCall("count"@, Box::new(Item::Property(x, p)))) == "count"@ + "("@ + (
        x + "."@ + p) + ")"@,
{
    reveal_with_fuel(column, 3);
}

/// The matches that a statement returns: those that `WHERE` keeps, in their
/// order, and of them the first, as many as the limit says.
pub open spec fn returned(g: GraphState, m: MatchStmt) -> Seq<EnvMap> {
    let ms = expand(g, m.pattern)->Ok_0;
    let kept = if m.where_clause is Some {
        ms.filter(|x: EnvMap| keeps(g, m.where_clause->0, x))
    } else {
        ms
    };
    let limit = m.return_clause->0.limit;
    if limit is Some && limit->0 < kept.len() {
        kept.take(limit->0 as int)
    } else {
        kept
    }
}

proof fn lemma_returned(g: GraphState, m: MatchStmt)
    requires
        m.return_clause is Some,
    ensures
        limited(
            filtered(g, m.where_clause, expand(g, m.pattern)->Ok_0),
            limit_of(m),
        ) == returned(g, m),
        limited(returned(g, m), limit_of(m)) == returned(g, m),
{
    let ms = expand(g, m.pattern)->Ok_0;
    if m.where_clause is Some {
        lemma_where_filters(g, m.where_clause->0, ms);
    } else {
        lemma_where_filters(g, Ex::Literal(Lit::Null), ms);
    }
}

proof fn lemma_row(g: GraphState, items: Seq<Item>, m: EnvMap)
    requires
        forall|j: int| 0 <= j < items.len() ==> is_plain(#[trigger] items[j]),
    ensures
        (forall|j: int| 0 <= j < items.len() ==> at_hand(g, m, variable_of(#[trigger] items[j])))
            ==> {
            &&& row(g, items, m) matches Ok(vs)
            &&& vs.len() == items.len()
            &&& forall|j: int| 0 <= j < items.len() ==> gives(g, m, #[trigger] items[j], vs[j])
        },
        (exists|j: int|
            0 <= j < items.len() && !m.contains_key(variable_of(#[trigger] items[j]))) ==> row(
            g,
            items,
            m,
        ) is Err,
    decreases items.len(),
{
    if items.len() > 0 {
        let d = items.drop_last();
        assert(forall|j: int| 0 <= j < d.len() ==> #[trigger] d[j] == items[j]);
        lemma_row(g, d, m);
        lemma_item(g, m, items.last());
        if forall|j: int| 0 <= j < items.len() ==> at_hand(g, m, variable_of(#[trigger] items[j])) {
            assert(at_hand(g, m, variable_of(items[items.len() - 1])));
            assert forall|j: int| 0 <= j < d.len() implies at_hand(
                g,
                m,
                variable_of(#[trigger] d[j]),
            ) by {
                assert(at_hand(g, m, variable_of(items[j])));
            }
            let vs = row(g, items, m)->Ok_0;
            assert forall|j: int| 0 <= j < items.len() implies gives(
                g,
                m,
                #[trigger] items[j],
                vs[j],
            ) by {
                if j < d.len() {
                    assert(d[j] == items[j]);
                }
            }
        }
        if exists|j: int|
            0 <= j < items.len() && !m.contains_key(variable_of(#[trigger] items[j])) {
            let j = choose|j: int|
                0 <= j < items.len() && !m.contains_key(variable_of(#[trigger] items[j]));
            if j < d.len() {
                assert(!m.contains_key(variable_of(d[j])));
            }
        }
    }
}

proof fn lemma_all_rows(g: GraphState, items: Seq<Item>, ms: Seq<EnvMap>)
    requires
        forall|j: int| 0 <= j < items.len() ==> is_plain(#[trigger] items[j]),
    ensures
        (forall|i: int, j: int|
            0 <= i < ms.len() && 0 <= j < items.len() ==> at_hand(
                g,
                #[trigger] ms[i],
                variable_of(#[trigger] items[j]),
            )) ==> {
            &&& rows(g, items, ms) matches Ok(rs)
            &&& rs.len() == ms.len()
            &&& forall|i: int| 0 <= i < ms.len() ==> (#[trigger] rs[i]).len() == items.len()
            &&& forall|i: int, j: int|
                0 <= i < ms.len() && 0 <= j < items.len() ==> gives(
                    g,
                    #[trigger] ms[i],
                    #[trigger] items[j],
                    rs[i][j],
                )
        },
        (exists|i: int, j: int|
            0 <= i < ms.len() && 0 <= j < items.len() && !(#[trigger] ms[i]).contains_key(
                variable_of(#[trigger] items[j]),
            )) ==> rows(g, items, ms) is Err,
    decreases ms.len(),
{
    if ms.len() > 0 {
        let d = ms.drop_last();
        let last = ms.last();
        assert(forall|i: int| 0 <= i < d.len() ==> #[trigger] d[i] == ms[i]);
        lemma_all_rows(g, items, d);
        lemma_row(g, items, last);
        assert(ms[ms.len() - 1] == last);
        if forall|i: int, j: int|
            0 <= i < ms.len() && 0 <= j < items.len() ==> at_hand(
                g,
                #[trigger] ms[i],
                variable_of(#[trigger] items[j]),
            ) {
            assert forall|i: int, j: int| 0 <= i < d.len() && 0 <= j < items.len() implies at_hand(
                g,
                #[trigger] d[i],
                variable_of(#[trigger] items[j]),
            ) by {
                assert(at_hand(g, ms[i], variable_of(items[j])));
            }
            assert forall|j: int| 0 <= j < items.len() implies at_hand(
                g,
                last,
                variable_of(#[trigger] items[j]),
            ) by {
                assert(at_hand(g, ms[ms.len() - 1], variable_of(items[j])));
            }
            let rs = rows(g, items, ms)->Ok_0;
            assert forall|i: int, j: int| 0 <= i < ms.len() && 0 <= j < items.len() implies gives(
                g,
                #[trigger] ms[i],
                #[trigger] items[j],
                rs[i][j],
            ) by {
                if i < d.len() {
                    assert(gives(g, d[i], items[j], rows(g, items, d)->Ok_0[i][j]));
                }
            }
        }
        if exists|i: int, j: int|
            0 <= i < ms.len() && 0 <= j < items.len() && !(#[trigger] ms[i]).contains_key(
                variable_of(#[trigger] items[j]),
            ) {
            let (i, j) = choose|i: int, j: int|
                0 <= i < ms.len() && 0 <= j < items.len() && !(#[trigger] ms[i]).contains_key(
                    variable_of(#[trigger] items[j]),
                );
            if i < d.len() {
                assert(!d[i].contains_key(variable_of(items[j])));
            } else {
                assert(!last.contains_key(variable_of(items[j])));
            }
        }
    }
}

proof fn lemma_no_aggregate(item: Item)
    ensures
        is_plain(item) ==> !is_aggregate(item),
        is_count(item) ==> is_aggregate(item),
    decreases item,
{
    match item {
        Item::Alias(a, _) => {
            lemma_no_aggregate(*a);
            assert(unaliased(item) == unaliased(*a));
        },
        _ => {},
    }
}

/// `RETURN` of variables and properties gives a row for each match that is
/// returned, in their order, with the value of each item there, under the names
/// of the items. Where an item names a variable that stands for nothing, it
/// fails.
pub proof fn lemma_rows_are_matches(g: GraphState, m: MatchStmt)
    requires
        m.return_clause is Some,
        expand(g, m.pattern) is Ok,
        forall|j: int|
            0 <= j < m.return_clause->0.items.len() ==> is_plain(
                #[trigger] m.return_clause->0.items[j],
            ),
    ensures
        ({
            let items = m.return_clause->0.items;
            let ms = returned(g, m);
            &&& (forall|i: int, j: int|
                0 <= i < ms.len() && 0 <= j < items.len() ==> at_hand(
                    g,
                    #[trigger] ms[i],
                    variable_of(#[trigger] items[j]),
                )) ==> {
                &&& run_match(g, m) matches Ok(q)
                &&& q.columns.len() == items.len()
                &&& forall|j: int|
                    0 <= j < items.len() ==> q.columns[j] == column(#[trigger] items[j])
                &&& q.rows.len() == ms.len()
                &&& forall|i: int| 0 <= i < ms.len() ==> (#[trigger] q.rows[i]).len() == items.len()
                &&& forall|i: int, j: int|
                    0 <= i < ms.len() && 0 <= j < items.len() ==> gives(
                        g,
                        #[trigger] ms[i],
                        #[trigger] items[j],
                        q.rows[i][j],
                    )
                &&& q.stats.nodes_created == 0 && q.stats.edges_created == 0
                &&& q.stats.nodes_deleted == 0 && q.stats.edges_deleted == 0
            }
            &&& (exists|i: int, j: int|
                0 <= i < ms.len() && 0 <= j < items.len() && !(#[trigger] ms[i]).contains_key(
                    variable_of(#[trigger] items[j]),
                )) ==> run_match(g, m) is Err
        }),
{
    let items = m.return_clause->0.items;
    lemma_returned(g, m);
    lemma_all_rows(g, items, returned(g, m));
    if any_aggregate(items) {
        let j = choose|j: int| 0 <= j < items.len() && is_aggregate(#[trigger] items[j]);
        lemma_no_aggregate(items[j]);
    }
}

/// Whether `v` is what an item gives over all matches: their number for
/// `count`, and for another item its value in the first of them, or null where
/// there is none.
pub open spec fn sums_up(g: GraphState, ms: Seq<EnvMap>, item: Item, v: Val) -> bool {
    if is_count(item) {
        v matches Val::Int(n) && n == ms.len()
    } else if ms.len() > 0 {
        gives(g, ms[0], item, v)
    } else {
        v == Val::Null
    }
}

proof fn lemma_unaliased(g: GraphState, m: EnvMap, item: Item)
    requires
        is_plain(item) || is_count(item),
    ensures
        is_plain(unaliased(item)) == is_plain(item),
        is_count(item) ==> (unaliased(item) matches Item::FunctionCall(f, _) && f == "count"@),
        is_plain(item) ==> !is_count(item),
        is_plain(item) ==> !(unaliased(item) is FunctionCall) && item_value(g, unaliased(item), m)
            == item_value(g, item, m),
    decreases item,
{
    match item {
        Item::Alias(a, _) => {
            lemma_unaliased(g, m, *a);
        },
        _ => {},
    }
}

proof fn lemma_sum(g: GraphState, items: Seq<Item>, ms: Seq<EnvMap>)
    requires
        forall|j: int|
            0 <= j < items.len() ==> is_plain(#[trigger] items[j]) || is_count(items[j]),
        ms.len() <= i64::MAX,
        forall|j: int|
            0 <= j < items.len() && is_plain(#[trigger] items[j]) && ms.len() > 0 ==> at_hand(
                g,
                ms[0],
                variable_of(items[j]),
            ),
    ensures
        aggregate_row(g, items, ms) matches Ok(vs) && vs.len() == items.len() && forall|j: int|
            0 <= j < items.len() ==> sums_up(g, ms, #[trigger] items[j], vs[j]),
    decreases items.len(),
{
    if items.len() > 0 {
        let d = items.drop_last();
        let item = items.last();
        assert(forall|j: int| 0 <= j < d.len() ==> #[trigger] d[j] == items[j]);
        assert(items[items.len() - 1] == item);
        lemma_sum(g, d, ms);
        lemma_unaliased(g, ms[0], item);
        if is_plain(item) {
            lemma_item(g, ms[0], item);
        }
        assert(aggregate(g, item, ms) is Ok && sums_up(g, ms, item, aggregate(g, item, ms)->Ok_0));
        let vs = aggregate_row(g, items, ms)->Ok_0;
        assert forall|j: int| 0 <= j < items.len() implies sums_up(
            g,
            ms,
            #[trigger] items[j],
            vs[j],
        ) by {
            if j < d.len() {
                assert(d[j] == items[j]);
            }
        }
    }
}

/// `RETURN` with a `count` gives one row: how many matches are returned, and of
/// the other items the values in the first of them.
pub proof fn lemma_count_counts(g: GraphState, m: MatchStmt)
    requires
        m.return_clause is Some,
        expand(g, m.pattern) is Ok,
        returned(g, m).len() <= i64::MAX,
        forall|j: int|
            0 <= j < m.return_clause->0.items.len() ==> is_plain(
                #[trigger] m.return_clause->0.items[j],
            ) || is_count(m.return_clause->0.items[j]),
        exists|j: int|
            0 <= j < m.return_clause->0.items.len() && is_count(
                #[trigger] m.return_clause->0.items[j],
            ),
        forall|j: int|
            0 <= j < m.return_clause->0.items.len() && is_plain(
                #[trigger] m.return_clause->0.items[j],
            ) && returned(g, m).len() > 0 ==> at_hand(
                g,
                returned(g, m)[0],
                variable_of(m.return_clause->0.items[j]),
            ),
    ensures
        ({
            let items = m.return_clause->0.items;
            &&& run_match(g, m) matches Ok(q)
            &&& q.columns.len() == items.len()
            &&& forall|j: int|
                0 <= j < items.len() ==> q.columns[j] == column(#[trigger] items[j])
            &&& q.rows.len() == 1 && q.rows[0].len() == items.len()
            &&& forall|j: int|
                0 <= j < items.len() ==> sums_up(
                    g,
                    returned(g, m),
                    #[trigger] items[j],
                    q.rows[0][j],
                )
            &&& q.stats.nodes_created == 0 && q.stats.edges_created == 0
            &&& q.stats.nodes_deleted == 0 && q.stats.edges_deleted == 0
        }),
{
    let items = m.return_clause->0.items;
    let j = choose|j: int| 0 <= j < items.len() && is_count(#[trigger] items[j]);
    lemma_no_aggregate(items[j]);
    assert(any_aggregate(items));
    lemma_returned(g, m);
    lemma_sum(g, items, returned(g, m));
}

} // verus!
