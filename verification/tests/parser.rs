//! From text to statements.

use gemgraph::cypher::ast::{
    CmpOp, EdgeDirection, Expr, LiteralValue, PatternElement, ReturnItem, Statement,
};
use gemgraph::cypher::lexer::{Lexer, Token};
use gemgraph::cypher::parser::Parser;
use gemgraph::float::Float;

#[test]
fn lex_match_return() {
    let mut lexer = Lexer::new("MATCH (n:Person) RETURN n");
    let tokens = lexer.tokenize().unwrap();
    assert_eq!(tokens, vec![
        Token::Match,
        Token::LParen,
        Token::Ident("n".into()),
        Token::Colon,
        Token::Ident("Person".into()),
        Token::RParen,
        Token::Return,
        Token::Ident("n".into()),
        Token::Eof,
    ]);
}

#[test]
fn lex_string_literal() {
    let mut lexer = Lexer::new("'hello world'");
    let tokens = lexer.tokenize().unwrap();
    assert_eq!(tokens, vec![Token::StringLit("hello world".into()), Token::Eof]);
}

#[test]
fn lex_numbers() {
    let mut lexer = Lexer::new("42 3.14");
    let tokens = lexer.tokenize().unwrap();
    assert_eq!(tokens, vec![Token::IntLit(42), Token::FloatLit(Float { bits: 3.14f64.to_bits() }), Token::Eof]);
}

#[test]
fn lex_case_insensitive_keywords() {
    let mut lexer = Lexer::new("match RETURN where");
    let tokens = lexer.tokenize().unwrap();
    assert_eq!(tokens, vec![Token::Match, Token::Return, Token::Where, Token::Eof]);
}

#[test]
fn lex_comparison_operators() {
    let mut lexer = Lexer::new("> < >= <= = <>");
    let tokens = lexer.tokenize().unwrap();
    assert_eq!(tokens, vec![
        Token::Gt, Token::Lt, Token::Gte, Token::Lte, Token::Eq, Token::Neq, Token::Eof,
    ]);
}

#[test]
fn lex_edge_pattern() {
    let mut lexer = Lexer::new("-[:KNOWS]->");
    let tokens = lexer.tokenize().unwrap();
    assert_eq!(tokens, vec![
        Token::Dash,
        Token::LBracket,
        Token::Colon,
        Token::Ident("KNOWS".into()),
        Token::RBracket,
        Token::Arrow,
        Token::Eof,
    ]);
}

#[test]
fn lex_properties() {
    let mut lexer = Lexer::new("{name: 'Alice', age: 30}");
    let tokens = lexer.tokenize().unwrap();
    assert_eq!(tokens, vec![
        Token::LBrace,
        Token::Ident("name".into()),
        Token::Colon,
        Token::StringLit("Alice".into()),
        Token::Comma,
        Token::Ident("age".into()),
        Token::Colon,
        Token::IntLit(30),
        Token::RBrace,
        Token::Eof,
    ]);
}

#[test]
fn lex_boolean_and_null() {
    let mut lexer = Lexer::new("true false null");
    let tokens = lexer.tokenize().unwrap();
    assert_eq!(tokens, vec![Token::True, Token::False, Token::Null, Token::Eof]);
}

fn parse(input: &str) -> Statement {
    let mut lexer = Lexer::new(input);
    let tokens = lexer.tokenize().unwrap();
    let mut parser = Parser::new(tokens);
    parser.parse().unwrap()
}

#[test]
fn parse_match_return_node() {
    let stmt = parse("MATCH (n:Person) RETURN n");
    match stmt {
        Statement::Match(m) => {
            assert_eq!(m.pattern.elements.len(), 1);
            match &m.pattern.elements[0] {
                PatternElement::Node(np) => {
                    assert_eq!(np.variable.as_deref(), Some("n"));
                    assert_eq!(np.label.as_deref(), Some("Person"));
                }
                _ => panic!("expected node pattern"),
            }
            let ret = m.return_clause.unwrap();
            assert_eq!(ret.items.len(), 1);
            assert_eq!(ret.items[0], ReturnItem::Variable("n".into()));
        }
        _ => panic!("expected Match"),
    }
}

#[test]
fn parse_match_edge_pattern() {
    let stmt = parse("MATCH (n)-[:KNOWS]->(m) RETURN n, m");
    match stmt {
        Statement::Match(m) => {
            assert_eq!(m.pattern.elements.len(), 3); // node, edge, node
            match &m.pattern.elements[1] {
                PatternElement::Edge(ep) => {
                    assert_eq!(ep.edge_type.as_deref(), Some("KNOWS"));
                    assert_eq!(ep.direction, EdgeDirection::Right);
                }
                _ => panic!("expected edge pattern"),
            }
        }
        _ => panic!("expected Match"),
    }
}

#[test]
fn parse_create_node_with_props() {
    let stmt = parse("CREATE (n:Person {name: 'Alice', age: 30})");
    match stmt {
        Statement::Create(c) => {
            assert_eq!(c.pattern.elements.len(), 1);
            match &c.pattern.elements[0] {
                PatternElement::Node(np) => {
                    assert_eq!(np.variable.as_deref(), Some("n"));
                    assert_eq!(np.label.as_deref(), Some("Person"));
                    assert_eq!(np.properties.len(), 2);
                    assert_eq!(
                        np.properties.get("name"),
                        Some(&Expr::Literal(LiteralValue::String("Alice".into())))
                    );
                    assert_eq!(
                        np.properties.get("age"),
                        Some(&Expr::Literal(LiteralValue::Int(30)))
                    );
                }
                _ => panic!("expected node pattern"),
            }
        }
        _ => panic!("expected Create"),
    }
}

#[test]
fn parse_create_edge_pattern() {
    let stmt = parse("CREATE (n:Person {name: 'Alice'})-[:KNOWS]->(m:Person {name: 'Bob'})");
    match stmt {
        Statement::Create(c) => {
            assert_eq!(c.pattern.elements.len(), 3);
        }
        _ => panic!("expected Create"),
    }
}

#[test]
fn parse_match_with_where() {
    let stmt = parse("MATCH (n:Person) WHERE n.age > 30 RETURN n.name");
    match stmt {
        Statement::Match(m) => {
            assert!(m.where_clause.is_some());
            match m.where_clause.unwrap() {
                Expr::Comparison(left, CmpOp::Gt, right) => {
                    assert_eq!(*left, Expr::Property("n".into(), "age".into()));
                    assert_eq!(*right, Expr::Literal(LiteralValue::Int(30)));
                }
                _ => panic!("expected comparison"),
            }
        }
        _ => panic!("expected Match"),
    }
}

#[test]
fn parse_match_with_limit() {
    let stmt = parse("MATCH (n:Person) RETURN n LIMIT 10");
    match stmt {
        Statement::Match(m) => {
            let ret = m.return_clause.unwrap();
            assert_eq!(ret.limit, Some(10));
        }
        _ => panic!("expected Match"),
    }
}

#[test]
fn parse_match_delete() {
    let stmt = parse("MATCH (n:Person {name: 'Alice'}) DELETE n");
    match stmt {
        Statement::Match(m) => {
            assert_eq!(m.delete_clause, Some(vec!["n".into()]));
            assert!(m.return_clause.is_none());
        }
        _ => panic!("expected Match"),
    }
}

#[test]
fn parse_merge() {
    let stmt = parse("MERGE (n:Person {name: 'Alice'})");
    match stmt {
        Statement::Merge(m) => {
            assert_eq!(m.pattern.label.as_deref(), Some("Person"));
            assert_eq!(m.pattern.variable.as_deref(), Some("n"));
        }
        _ => panic!("expected Merge"),
    }
}

#[test]
fn parse_count_function() {
    let stmt = parse("MATCH (n:Person) RETURN count(n)");
    match stmt {
        Statement::Match(m) => {
            let ret = m.return_clause.unwrap();
            match &ret.items[0] {
                ReturnItem::FunctionCall(name, inner) => {
                    assert_eq!(name, "count");
                    assert_eq!(**inner, ReturnItem::Variable("n".into()));
                }
                _ => panic!("expected function call"),
            }
        }
        _ => panic!("expected Match"),
    }
}

#[test]
fn parse_error_on_invalid() {
    let mut lexer = Lexer::new("MATCH RETURN");
    let tokens = lexer.tokenize().unwrap();
    let mut parser = Parser::new(tokens);
    assert!(parser.parse().is_err());
}

#[test]
fn parse_property_return() {
    let stmt = parse("MATCH (n:Person) RETURN n.name, n.age");
    match stmt {
        Statement::Match(m) => {
            let ret = m.return_clause.unwrap();
            assert_eq!(ret.items.len(), 2);
            assert_eq!(ret.items[0], ReturnItem::Property("n".into(), "name".into()));
            assert_eq!(ret.items[1], ReturnItem::Property("n".into(), "age".into()));
        }
        _ => panic!("expected Match"),
    }
}

#[test]
fn parse_multi_hop() {
    let stmt = parse("MATCH (a)-[:X]->(b)-[:Y]->(c) RETURN a, b, c");
    match stmt {
        Statement::Match(m) => {
            // node, edge, node, edge, node = 5 elements
            assert_eq!(m.pattern.elements.len(), 5);
        }
        _ => panic!("expected Match"),
    }
}

#[test]
fn parse_edge_variable() {
    let stmt = parse("MATCH (n)-[r:KNOWS]->(m) RETURN n, r, m");
    match stmt {
        Statement::Match(m) => {
            match &m.pattern.elements[1] {
                PatternElement::Edge(ep) => {
                    assert_eq!(ep.variable.as_deref(), Some("r"));
                    assert_eq!(ep.edge_type.as_deref(), Some("KNOWS"));
                }
                _ => panic!("expected edge"),
            }
        }
        _ => panic!("expected Match"),
    }
}

#[test]
fn parse_where_and_or() {
    let stmt = parse("MATCH (n:Person) WHERE n.age > 20 AND n.age < 50 RETURN n");
    match stmt {
        Statement::Match(m) => {
            match m.where_clause.unwrap() {
                Expr::And(_, _) => {}
                other => panic!("expected And, got {:?}", other),
            }
        }
        _ => panic!("expected Match"),
    }
}
