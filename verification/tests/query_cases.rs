//! Edge cases of queries, and what holds across them.

use gemgraph::cypher::ast::Statement;
use gemgraph::cypher::executor::{
    execute_read, execute_write, has_room, try_execute_write, QueryResult,
};
use gemgraph::cypher::lexer::{keyword, Lexer, Token};
use gemgraph::cypher::parser::{token_text, Parser};
use gemgraph::cypher::values::{value_display, values_equal};
use gemgraph::cypher::CypherError;
use gemgraph::float::Float;
use gemgraph::graph::db::GraphDb;
use gemgraph::graph::types::{Properties, Value};
use gemgraph::shell::{command_of, format_value, needs_write, result_lines, Command};
use gemgraph::workload::{
    batch_end, edge_ends, lookup_index, pair_properties, person_properties, start_index, traverse,
};

fn float(x: f64) -> Value {
    Value::Float(Float { bits: x.to_bits() })
}

fn lex(s: &str) -> Result<Vec<Token>, CypherError> {
    Lexer::new(s).tokenize()
}

fn parse(s: &str) -> Result<Statement, CypherError> {
    Parser::new(lex(s)?).parse()
}

fn parse_error(s: &str) -> String {
    match parse(s) {
        Err(CypherError::Parse(m)) => m,
        _ => panic!("expected a parse error"),
    }
}

fn write(db: &mut GraphDb, q: &str) -> Result<QueryResult, CypherError> {
    let mut txn = db.write_txn();
    assert!(has_room(&txn, q.chars().count() + 1));
    match execute_write(q, &mut txn) {
        Ok(r) => {
            txn.commit().unwrap();
            Ok(r)
        }
        Err(e) => {
            txn.abort();
            Err(e)
        }
    }
}

fn read(db: &GraphDb, q: &str) -> Result<QueryResult, CypherError> {
    execute_read(q, &db.read_txn())
}

#[test]
fn words_and_spaces_beyond_ascii() {
    assert_eq!(
        lex("naïve\u{3000}Größe\u{a0}x1_é").unwrap(),
        vec![
            Token::Ident("naïve".into()),
            Token::Ident("Größe".into()),
            Token::Ident("x1_é".into()),
            Token::Eof
        ]
    );
    assert!(matches!(lex("€"), Err(CypherError::Lex(_))));
}

#[test]
fn keywords_in_any_case() {
    for word in ["match", "MATCH", "mAtCh"] {
        assert_eq!(lex(word).unwrap(), vec![Token::Match, Token::Eof]);
    }
    assert_eq!(lex("matches").unwrap()[0], Token::Ident("matches".into()));
    assert_eq!(keyword("WHERE", "where".into()), Token::Where);
    assert_eq!(keyword("WHEREVER", "wherever".into()), Token::Ident("wherever".into()));
    // The long s has the upper case of an s.
    assert_eq!(lex("fal\u{17f}e").unwrap()[0], Token::False);
}

#[test]
fn lexical_errors() {
    match lex("'open") {
        Err(CypherError::Lex(m)) => assert_eq!(m, "unterminated string"),
        _ => panic!("expected an error"),
    }
    match lex("9223372036854775808") {
        Err(CypherError::Lex(m)) => assert_eq!(m, "number too large to fit in target type"),
        _ => panic!("expected an error"),
    }
    assert_eq!(lex("9223372036854775807").unwrap()[0], Token::IntLit(i64::MAX));
}

#[test]
fn decimal_literals_round_as_the_standard_parser() {
    for s in [
        "0.1", "0.2", "0.3", "3.14", "1.0", "2.5", "123456789.123456789", "0.000001",
        "9007199254740993.0", "9007199254740992.5", "179769313486231570.0",
        "0.1000000000000000055511151231257827021181583404541015625", "4.35", "1.7976931348623157",
        "0.00000000000000000000000000000000000000000000001", "99999999999999999999999.5",
    ] {
        let expected: f64 = s.parse().unwrap();
        assert_eq!(lex(s).unwrap()[0], Token::FloatLit(Float { bits: expected.to_bits() }), "{s}");
    }
}

#[test]
fn floats_are_shown_as_the_standard_library_shows_them() {
    for x in [
        0.0, -0.0, 1.0, -1.5, 0.1, 0.2 + 0.1, 1e21, 1e22, 1.5e300, 5e-324, 1e-7, 123456.789,
        f64::MAX, f64::MIN_POSITIVE, f64::INFINITY, f64::NEG_INFINITY, f64::NAN, 4.35, 2.0f64.powi(70),
    ] {
        assert_eq!(format_value(&float(x)), format!("{x}"));
        assert_eq!(value_display(&float(x)), format!("{x}"));
        assert_eq!(
            token_text(&Token::FloatLit(Float { bits: x.to_bits() })),
            format!("FloatLit({x:?})")
        );
    }
}

#[test]
fn tokens_are_shown_with_escapes() {
    let s = "tab\t, quote \", back\\slash, nul\0, é\u{200b}";
    assert_eq!(token_text(&Token::StringLit(s.into())), format!("StringLit({s:?})"));
    assert_eq!(token_text(&Token::IntLit(-5)), "IntLit(-5)");
    assert_eq!(token_text(&Token::LBrace), "LBrace");
}

#[test]
fn parse_errors_name_the_token() {
    for q in ["", "RETURN 1", "MATCH", "MATCH (n", "MATCH (n) RETURN", "CREATE (n:)"] {
        assert!(!parse_error(q).is_empty());
    }
    assert!(parse_error("MATCH (n \"two\nlines\") RETURN n").contains("StringLit(\"two\\nlines\")"));
}

#[test]
fn reads_do_not_write() {
    let mut db = GraphDb::create().unwrap();
    write(&mut db, "CREATE (a:P {name: 'x'})").unwrap();
    match read(&db, "CREATE (a:P)") {
        Err(CypherError::Execution(m)) => assert_eq!(m, "CREATE requires a write transaction"),
        _ => panic!("expected an error"),
    }
    match read(&db, "MERGE (a:P)") {
        Err(CypherError::Execution(m)) => assert_eq!(m, "MERGE requires a write transaction"),
        _ => panic!("expected an error"),
    }
    assert!(matches!(read(&db, "MATCH ("), Err(CypherError::Parse(_))));
    assert!(matches!(read(&db, "#"), Err(CypherError::Lex(_))));
    assert_eq!(read(&db, "MATCH (n:P) RETURN n").unwrap().rows.len(), 1);
}

#[test]
fn merging_twice_creates_once() {
    let mut db = GraphDb::create().unwrap();
    let first = write(&mut db, "MERGE (a:P {name: 'x', n: 1.5})").unwrap();
    let second = write(&mut db, "MERGE (a:P {n: 1.5, name: 'x'})").unwrap();
    assert_eq!(first.stats.nodes_created, 1);
    assert_eq!(second.stats.nodes_created, 0);
    assert_eq!(db.read_txn().nodes_by_label("P").unwrap().len(), 1);
    assert!(matches!(write(&mut db, "MERGE (a {name: 'x'})"), Err(CypherError::Execution(_))));
}

#[test]
fn what_is_created_is_matched_and_what_is_deleted_is_not() {
    let mut db = GraphDb::create().unwrap();
    let r = write(&mut db, "CREATE (a:P {n: 1})-[:T]->(b:P {n: 2})").unwrap();
    assert_eq!((r.stats.nodes_created, r.stats.edges_created), (2, 1));
    let r = read(&db, "MATCH (a:P {n: 1})-[:T]->(b:P) RETURN b.n").unwrap();
    assert_eq!(r.rows, vec![vec![Value::Int(2)]]);
    let r = read(&db, "MATCH (a:P)<-[:T]-(b:P) RETURN a.n, b.n").unwrap();
    assert_eq!(r.rows, vec![vec![Value::Int(2), Value::Int(1)]]);
    assert!(read(&db, "MATCH (a:P {n: 1})-[:U]->(b:P) RETURN b").unwrap().rows.is_empty());
    let r = write(&mut db, "MATCH (a:P {n: 2}) DELETE a").unwrap();
    assert_eq!(r.stats.nodes_deleted, 1);
    assert!(read(&db, "MATCH (a:P)-[:T]->(b:P) RETURN b").unwrap().rows.is_empty());
    assert_eq!(read(&db, "MATCH (a:P) RETURN a.n").unwrap().rows, vec![vec![Value::Int(1)]]);
}

#[test]
fn a_failed_write_changes_nothing() {
    let mut db = GraphDb::create().unwrap();
    write(&mut db, "CREATE (a:P {n: 1})").unwrap();
    let long = "y".repeat(1500);
    let q = format!("CREATE (a:P {{n: 2}})-[:T]->(b:P {{t: '{long}'}})");
    assert!(matches!(write(&mut db, &q), Err(CypherError::Graph(_))));
    assert_eq!(read(&db, "MATCH (a:P) RETURN a.n").unwrap().rows, vec![vec![Value::Int(1)]]);
}

#[test]
fn comparisons_cross_number_kinds() {
    let mut db = GraphDb::create().unwrap();
    write(&mut db, "CREATE (a:P {n: 1})").unwrap();
    write(&mut db, "CREATE (a:P {n: 1.5})").unwrap();
    write(&mut db, "CREATE (a:P {n: 2})").unwrap();
    write(&mut db, "CREATE (a:P {s: 'x'})").unwrap();
    let r = read(&db, "MATCH (a:P) WHERE a.n > 1 AND NOT a.n = 2.0 RETURN a.n").unwrap();
    assert_eq!(r.rows, vec![vec![float(1.5)]]);
    let r = read(&db, "MATCH (a:P) WHERE a.n >= 1.5 OR a.s = 'x' RETURN count(a)").unwrap();
    assert_eq!(r.rows, vec![vec![Value::Int(3)]]);
    let r = read(&db, "MATCH (a:P) RETURN a.n LIMIT 2").unwrap();
    assert_eq!(r.rows.len(), 2);
    assert!(values_equal(&Value::Int(2), &float(2.0)));
    assert!(!values_equal(&float(f64::NAN), &float(f64::NAN)));
    assert!(!values_equal(&Value::Int(1), &Value::Bool(true)));
}

#[test]
fn a_limit_leaves_the_first_rows() {
    let mut db = GraphDb::create().unwrap();
    for i in 0..7 {
        write(&mut db, &format!("CREATE (a:P {{n: {i}}})")).unwrap();
    }
    let query = "MATCH (a:P) WHERE a.n > 0 RETURN a.n AS x, a.n";
    let all = read(&db, query).unwrap();
    assert_eq!(all.rows.len(), 6);
    for k in 0..9usize {
        let some = read(&db, &format!("{query} LIMIT {k}")).unwrap();
        assert_eq!(some.columns, all.columns);
        assert_eq!(some.rows, all.rows[..k.min(6)]);
    }
}

#[test]
fn a_query_runs_where_its_statement_has_room() {
    let mut db = GraphDb::create().unwrap();
    let mut txn = db.write_txn();
    let r = try_execute_write("CREATE (a:P {n: 1})-[:R]->(b:Q)", &mut txn).unwrap().unwrap();
    assert_eq!((r.stats.nodes_created, r.stats.edges_created), (2, 1));
    let r = try_execute_write("MATCH (a:P)-[:R]->(b) RETURN a.n", &mut txn).unwrap().unwrap();
    assert_eq!(r.rows, vec![vec![Value::Int(1)]]);
    assert!(matches!(
        try_execute_write("MATCH", &mut txn),
        Some(Err(CypherError::Parse(_)))
    ));
    txn.commit().unwrap();
    assert_eq!(read(&db, "MATCH (b:Q) RETURN count(b)").unwrap().rows, vec![vec![Value::Int(1)]]);
}

#[test]
fn a_second_merge_gives_the_same_row() {
    let mut db = GraphDb::create().unwrap();
    write(&mut db, "CREATE (a:P {n: 1})").unwrap();
    let found = write(&mut db, "MERGE (a:P {n: 1})").unwrap();
    assert_eq!(found.stats.nodes_created, 0);
    let first = write(&mut db, "MERGE (a:P {n: 2})").unwrap();
    assert_eq!(first.stats.nodes_created, 1);
    assert_eq!(first.rows.len(), 1);
    let second = write(&mut db, "MERGE (a:P {n: 2})").unwrap();
    assert_eq!(second.stats.nodes_created, 0);
    assert_eq!(second.columns, first.columns);
    assert_eq!(second.rows, first.rows);
    assert!(found.rows != first.rows);
}

#[test]
fn shell_commands() {
    assert_eq!(command_of("  \t\n"), Command::Skip);
    assert_eq!(command_of(" QuIt \r\n"), Command::Quit);
    assert_eq!(command_of("exit"), Command::Quit);
    assert_eq!(command_of("exit now"), Command::Read("exit now".into()));
    assert_eq!(
        command_of("\u{3000} match (n:P) return n \n"),
        Command::Read("match (n:P) return n".into())
    );
    assert_eq!(command_of("create (n:P)"), Command::Write("create (n:P)".into()));
    assert_eq!(command_of("Merge (n:P)\n"), Command::Write("Merge (n:P)".into()));
    assert_eq!(command_of("match (n) delete n"), Command::Write("match (n) delete n".into()));
    assert_eq!(command_of("return delete"), Command::Read("return delete".into()));
    assert!(needs_write("DELETE x"));
    assert!(needs_write("MATCH DELETE"));
    assert!(!needs_write("match delete"));
    assert!(!needs_write("MATCH DELET"));
    assert!(!needs_write(""));
}

#[test]
fn results_are_shown_as_tables() {
    let mut db = GraphDb::create().unwrap();
    let r = write(&mut db, "CREATE (a:P {n: 1, s: 'x'})-[:T]->(b:P {n: 2.5})").unwrap();
    assert_eq!(result_lines(&r), vec!["2 node(s) created, 1 edge(s) created".to_string()]);
    let r = read(&db, "MATCH (a:P) RETURN a.n, a.s").unwrap();
    assert_eq!(
        result_lines(&r),
        vec![
            "a.n\ta.s".to_string(),
            "-".repeat(32),
            "1\t\"x\"".to_string(),
            "2.5\tnull".to_string(),
            "(2 rows)".to_string(),
        ]
    );
    let r = read(&db, "MATCH (a:P {n: 1}) RETURN a.n").unwrap();
    assert_eq!(result_lines(&r)[3], "(1 row)");
    let r = write(&mut db, "MATCH (a:P {n: 1}) DELETE a").unwrap();
    assert_eq!(result_lines(&r), vec!["1 node(s) deleted".to_string()]);
    assert!(result_lines(&QueryResult::default()).is_empty());
    assert_eq!(format_value(&Value::Bool(true)), "true");
    assert_eq!(format_value(&Value::Int(i64::MIN)), "-9223372036854775808");
}

#[test]
fn the_workload() {
    assert_eq!(lookup_index(3, 10), 4);
    assert_eq!(edge_ends(0, 10), (3, 7));
    assert_eq!(start_index(3, 100), 11);
    assert_eq!(batch_end(0, 1000, 1500), 1000);
    assert_eq!(batch_end(1000, 1000, 1500), 1500);
    for n in [2, 3, 7, 14, 1000] {
        for i in 0..2000 {
            let (src, dst) = edge_ends(i, n);
            assert!(src < n && dst < n && src != dst);
        }
    }
    let p = pair_properties(42);
    assert_eq!(p.get("key"), Some(&Value::String("key_00000042".into())));
    assert_eq!(p.get("val"), Some(&Value::String("value_00000042".into())));
    let p = pair_properties(1234567890);
    assert_eq!(p.get("key"), Some(&Value::String("key_1234567890".into())));
    let p = person_properties(85);
    assert_eq!(p.get("name"), Some(&Value::String("person_85".into())));
    assert_eq!(p.get("age"), Some(&Value::Int(5)));
}

#[test]
fn walks_count_every_way() {
    let mut db = GraphDb::create().unwrap();
    let mut wtx = db.write_txn();
    let ids: Vec<u64> =
        (0..4).map(|_| wtx.create_node("N", Properties::new()).unwrap()).collect();
    for (a, b) in [(0, 1), (0, 2), (1, 3), (2, 3), (3, 0)] {
        wtx.create_edge(ids[a], ids[b], "E", Properties::new()).unwrap();
    }
    wtx.create_edge(ids[0], ids[3], "F", Properties::new()).unwrap();
    wtx.commit().unwrap();
    let rtx = db.read_txn();
    assert_eq!(traverse(&rtx, ids[0], "E", 0).unwrap(), vec![ids[0]]);
    assert_eq!(traverse(&rtx, ids[0], "E", 1).unwrap(), vec![ids[1], ids[2]]);
    assert_eq!(traverse(&rtx, ids[0], "E", 2).unwrap(), vec![ids[3], ids[3]]);
    assert_eq!(traverse(&rtx, ids[0], "E", 3).unwrap(), vec![ids[0], ids[0]]);
}
