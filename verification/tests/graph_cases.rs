//! Edge cases of graphs and their records, and what holds across operations.

use gemgraph::datafile::DataFile;
use gemgraph::float::{compare_floats, int_to_float, Float};
use gemgraph::bytes::KeyOrder;
use gemgraph::graph::codec::{decode_edge, decode_node, encode_edge, encode_node};
use gemgraph::graph::db::GraphDb;
use gemgraph::graph::keys::{
    decode_adjacency_key, decode_label_key, encode_adjacency_key, encode_label_key, hash_str,
};
use gemgraph::graph::types::{
    Direction, EdgeRecord, NodeRecord, Properties, Value,
};
use gemgraph::graph::GraphError;
use gemgraph::mvcc::database::Database;
use gemgraph::mvcc::{MvccError, TreeId};
use gemgraph::error::{BTreeError, IoError, PagerError};
use gemgraph::page::{PageId, PAGE_SIZE};

fn float(x: f64) -> Value {
    Value::Float(Float { bits: x.to_bits() })
}

fn one(name: &str, v: Value) -> Properties {
    let mut p = Properties::new();
    p.insert(name.to_string(), v);
    p
}

fn copy_of(file: &DataFile) -> DataFile {
    let mut r = DataFile::new();
    for i in 0..file.page_count() {
        r.load_page(&file.read(PageId(i as u32)).unwrap());
    }
    r
}

#[test]
fn hashes_are_fnv1a() {
    assert_eq!(hash_str(""), 0x811c_9dc5);
    assert_eq!(hash_str("a"), 0xe40c_292c);
    assert_eq!(hash_str("foobar"), 0xbf9c_f968);
}

#[test]
fn node_records_have_their_bytes() {
    let mut props = Properties::new();
    props.insert("n".into(), Value::Null);
    props.insert("b".into(), Value::Bool(true));
    props.insert("i".into(), Value::Int(-2));
    props.insert("f".into(), float(1.5));
    props.insert("s".into(), Value::String("é".into()));
    let rec = NodeRecord { label: "L".into(), props: props };
    let bytes = encode_node(&rec).unwrap();
    let mut e: Vec<u8> = Vec::new();
    let text = |e: &mut Vec<u8>, s: &str| {
        e.extend_from_slice(&(s.len() as u64).to_le_bytes());
        e.extend_from_slice(s.as_bytes());
    };
    text(&mut e, "L");
    e.extend_from_slice(&5u64.to_le_bytes());
    text(&mut e, "n");
    e.extend_from_slice(&[0, 0, 0, 0]);
    text(&mut e, "b");
    e.extend_from_slice(&[1, 0, 0, 0, 1]);
    text(&mut e, "i");
    e.extend_from_slice(&[2, 0, 0, 0]);
    e.extend_from_slice(&(-2i64).to_le_bytes());
    text(&mut e, "f");
    e.extend_from_slice(&[3, 0, 0, 0]);
    e.extend_from_slice(&1.5f64.to_le_bytes());
    text(&mut e, "s");
    e.extend_from_slice(&[4, 0, 0, 0]);
    text(&mut e, "é");
    assert_eq!(bytes, e);
    let back = decode_node(&bytes).unwrap();
    assert_eq!(back.label, "L");
    assert_eq!(back.props.len(), 5);
    assert_eq!(back.props.get("s"), Some(&Value::String("é".into())));
}

#[test]
fn edge_records_read_back() {
    let rec = EdgeRecord {
        src: 7,
        dst: u64::MAX,
        edge_type: "KNOWS".into(),
        props: one("since", Value::Int(i64::MIN)),
    };
    let bytes = encode_edge(&rec).unwrap();
    assert_eq!(bytes[..8], 7u64.to_le_bytes());
    assert_eq!(bytes[8..16], u64::MAX.to_le_bytes());
    let back = decode_edge(&bytes).unwrap();
    assert_eq!((back.src, back.dst), (7, u64::MAX));
    assert_eq!(back.edge_type, "KNOWS");
    assert_eq!(back.props.get("since"), Some(&Value::Int(i64::MIN)));
}

#[test]
fn damaged_records_are_refused() {
    let rec = NodeRecord { label: "Label".into(), props: one("b", Value::Bool(false)) };
    let bytes = encode_node(&rec).unwrap();
    for cut in 0..bytes.len() {
        assert!(matches!(decode_node(&bytes[..cut]), Err(GraphError::Serialization(_))));
    }
    let mut bad_flag = bytes.clone();
    *bad_flag.last_mut().unwrap() = 2;
    assert!(matches!(decode_node(&bad_flag), Err(GraphError::Serialization(_))));
    let mut bad_tag = bytes.clone();
    let at = bytes.len() - 5;
    bad_tag[at] = 9;
    match decode_node(&bad_tag) {
        Err(GraphError::Serialization(m)) => {
            assert_eq!(m, "invalid value: integer `9`, expected variant index 0 <= i < 5");
        }
        _ => panic!("expected an error"),
    }
    let mut bad_text = bytes.clone();
    bad_text[8] = 0xFF;
    assert!(matches!(decode_node(&bad_text), Err(GraphError::Serialization(_))));
    let mut longer = bytes;
    longer.push(1);
    assert_eq!(decode_node(&longer).unwrap().label, "Label");
    assert!(matches!(decode_edge(&[0; 15]), Err(GraphError::Serialization(_))));
}

#[test]
fn index_keys_read_back_and_sort() {
    let key = encode_adjacency_key(5, Direction::In, 0xDEAD_BEEF, 9, 11);
    assert_eq!(decode_adjacency_key(&key), (5, Direction::In, 0xDEAD_BEEF, 9, 11));
    assert_eq!(key[..8], 5u64.to_be_bytes());
    assert!(key < encode_adjacency_key(6, Direction::Out, 0, 0, 0));
    assert!(encode_adjacency_key(5, Direction::Out, u32::MAX, u64::MAX, u64::MAX) < key);
    let label = encode_label_key(3, 4);
    assert_eq!(decode_label_key(&label), (3, 4));
    assert!(label < encode_label_key(3, 256));
}

#[test]
fn edges_show_on_both_ends() {
    let mut db = GraphDb::create().unwrap();
    let mut wtx = db.write_txn();
    let a = wtx.create_node("A", Properties::new()).unwrap();
    let b = wtx.create_node("B", Properties::new()).unwrap();
    let e = wtx.create_edge(a, b, "T", Properties::new()).unwrap();
    let f = wtx.create_edge(a, b, "U", Properties::new()).unwrap();
    let loopy = wtx.create_edge(a, a, "T", Properties::new()).unwrap();
    wtx.commit().unwrap();
    let rtx = db.read_txn();
    for t in ["T", "U"] {
        for (edge, other) in rtx.neighbors(a, Direction::Out, Some(t)).unwrap() {
            assert!(rtx.neighbors(other, Direction::In, Some(t)).unwrap().contains(&(edge, a)));
        }
    }
    assert_eq!(rtx.neighbors(b, Direction::In, None).unwrap().len(), 2);
    assert_eq!(rtx.neighbors(a, Direction::In, Some("T")).unwrap(), vec![(loopy, a)]);
    let mut wtx = db.write_txn();
    assert!(wtx.delete_edge(e).unwrap());
    assert!(!wtx.delete_edge(e).unwrap());
    assert!(wtx.get_edge(f).unwrap().is_some());
    assert!(wtx.delete_node(a).unwrap());
    assert!(wtx.get_edge(f).unwrap().is_none());
    assert!(wtx.get_edge(loopy).unwrap().is_none());
    assert!(wtx.neighbors(b, Direction::In, None).unwrap().is_empty());
    assert!(wtx.nodes_by_label("A").unwrap().is_empty());
    assert_eq!(wtx.nodes_by_label("B").unwrap(), vec![b]);
    wtx.commit().unwrap();
}

#[test]
fn numbers_are_never_given_twice() {
    let mut db = GraphDb::create().unwrap();
    let mut wtx = db.write_txn();
    assert_eq!(wtx.next_node_id(), 1);
    let a = wtx.create_node("A", Properties::new()).unwrap();
    assert!(wtx.delete_node(a).unwrap());
    let b = wtx.create_node("A", Properties::new()).unwrap();
    assert_eq!((a, b), (1, 2));
    assert_eq!(wtx.next_node_id(), 3);
    assert_eq!(wtx.next_edge_id(), 1);
    wtx.commit().unwrap();
}

#[test]
fn properties_are_set_one_by_one() {
    let mut db = GraphDb::create().unwrap();
    let mut wtx = db.write_txn();
    let a = wtx.create_node("A", one("x", Value::Int(1))).unwrap();
    wtx.set_node_property(a, "y", float(2.5)).unwrap();
    wtx.set_node_property(a, "x", Value::Null).unwrap();
    assert_eq!(
        wtx.set_node_property(99, "x", Value::Null),
        Err(GraphError::NodeNotFound(99))
    );
    wtx.commit().unwrap();
    let rtx = db.read_txn();
    assert_eq!(rtx.get_node_property(a, "x").unwrap(), Some(Value::Null));
    assert_eq!(rtx.get_node_property(a, "y").unwrap(), Some(float(2.5)));
    assert_eq!(rtx.get_node_property(a, "z").unwrap(), None);
    assert_eq!(rtx.get_node_property(99, "x").unwrap(), None);
}

#[test]
fn missing_ends_and_large_records_are_errors() {
    let mut db = GraphDb::create().unwrap();
    let mut wtx = db.write_txn();
    let a = wtx.create_node("A", Properties::new()).unwrap();
    assert_eq!(
        wtx.create_edge(9, a, "T", Properties::new()),
        Err(GraphError::NodeNotFound(9))
    );
    assert_eq!(
        wtx.create_edge(a, 9, "T", Properties::new()),
        Err(GraphError::NodeNotFound(9))
    );
    let long = "x".repeat(2000);
    match wtx.create_node(&long, Properties::new()) {
        Err(GraphError::Mvcc(MvccError::BTree(BTreeError::ValueTooLarge(n, max)))) => {
            assert_eq!((n, max), (2016, 1000));
        }
        other => panic!("unexpected {:?}", other),
    }
}

#[test]
fn an_aborted_graph_transaction_is_gone() {
    let mut db = GraphDb::create().unwrap();
    let mut wtx = db.write_txn();
    let a = wtx.create_node("A", one("x", Value::Int(1))).unwrap();
    wtx.commit().unwrap();
    let mut wtx = db.write_txn();
    wtx.set_node_property(a, "x", Value::Int(2)).unwrap();
    let b = wtx.create_node("A", Properties::new()).unwrap();
    wtx.create_edge(a, b, "T", Properties::new()).unwrap();
    wtx.abort();
    let rtx = db.read_txn();
    assert_eq!(rtx.get_node_property(a, "x").unwrap(), Some(Value::Int(1)));
    assert_eq!(rtx.nodes_by_label("A").unwrap(), vec![a]);
    assert!(rtx.neighbors(a, Direction::Out, None).unwrap().is_empty());
    assert!(db.is_graph());
}

#[test]
fn only_graphs_are_opened() {
    match GraphDb::try_open(DataFile::new(), None) {
        Some(Err(GraphError::Mvcc(MvccError::Pager(PagerError::Io(IoError::UnexpectedEof))))) => {}
        _ => panic!("expected the end of the file"),
    }

    let (file, log) = Database::create().into_files();
    match GraphDb::open(file, Some(log)) {
        Err(GraphError::Mvcc(MvccError::TreeNotFound(id))) => assert_eq!(id, TreeId(1)),
        _ => panic!("expected a missing tree"),
    }

    let mut db = Database::create();
    let mut wtx = db.write_txn();
    wtx.create_tree().unwrap();
    wtx.insert(TreeId(1), b"magic", b"something else").unwrap();
    wtx.commit().unwrap();
    let (file, log) = db.into_files();
    match GraphDb::open(file, Some(log)) {
        Err(GraphError::InvalidDatabase(s)) => assert_eq!(s, "missing or invalid magic marker"),
        _ => panic!("expected a missing marker"),
    }
}

#[test]
fn damaged_graphs_are_not_opened() {
    let mut db = GraphDb::create().unwrap();
    let mut wtx = db.write_txn();
    for i in 0..50 {
        wtx.create_node("A", one("i", Value::Int(i))).unwrap();
    }
    wtx.commit().unwrap();
    let (file, log) = db.into_files();
    let again = GraphDb::try_open(copy_of(&file), Some(log.clone())).unwrap().unwrap();
    assert_eq!(again.read_txn().nodes_by_label("A").unwrap().len(), 50);
    let mut bad = copy_of(&file);
    bad.write(PageId(2), &[0xAB; PAGE_SIZE]);
    assert!(GraphDb::try_open(bad, Some(log)).is_none());
}

#[test]
fn floats_compare_as_numbers() {
    let xs = [f64::NEG_INFINITY, -1.5, -0.0, 0.0, 5e-324, 1.0, 1.5, 1e300, f64::INFINITY, f64::NAN];
    for a in xs {
        for b in xs {
            let (fa, fb) = (Float { bits: a.to_bits() }, Float { bits: b.to_bits() });
            assert_eq!(fa == fb, a == b);
            let expected = if a < b {
                Some(KeyOrder::Less)
            } else if a > b {
                Some(KeyOrder::Greater)
            } else if a == b {
                Some(KeyOrder::Equal)
            } else {
                None
            };
            assert_eq!(compare_floats(fa, fb), expected);
        }
    }
    for i in [0, 1, -1, i64::MAX, i64::MIN, 9007199254740993, -9007199254740993, 123456789012345678] {
        assert_eq!(int_to_float(i).bits, (i as f64).to_bits());
    }
}

#[test]
fn neighbours_come_by_type_hash_then_neighbour_then_edge() {
    let mut db = GraphDb::create().unwrap();
    let mut txn = db.write_txn();
    let ids: Vec<u64> =
        (0..5).map(|_| txn.create_node("P", Properties::new()).unwrap()).collect();
    for (to, kind) in [(3, "B"), (1, "A"), (4, "B"), (1, "B"), (3, "C"), (1, "A"), (2, "C")] {
        txn.create_edge(ids[0], ids[to], kind, Properties::new()).unwrap();
    }
    let listed = txn.neighbors(ids[0], Direction::Out, None).unwrap();
    assert_eq!(listed.len(), 7);
    let keys: Vec<(u32, u64, u64)> = listed
        .iter()
        .map(|(e, o)| (hash_str(&txn.get_edge(*e).unwrap().unwrap().edge_type), *o, *e))
        .collect();
    assert!(keys.windows(2).all(|w| w[0] < w[1]));
    let labelled = txn.nodes_by_label("P").unwrap();
    assert_eq!(labelled, ids);
    txn.commit().unwrap();
}

#[test]
fn deleting_a_node_spares_the_edges_of_others() {
    let mut db = GraphDb::create().unwrap();
    let mut txn = db.write_txn();
    let ids: Vec<u64> =
        (0..4).map(|_| txn.create_node("P", Properties::new()).unwrap()).collect();
    let mut edges = Vec::new();
    for a in 0..4 {
        for b in 0..4 {
            let e = txn.create_edge(ids[a], ids[b], "R", one("n", Value::Int(1))).unwrap();
            edges.push((a, b, e));
        }
    }
    txn.delete_node(ids[1]).unwrap();
    for (a, b, e) in edges {
        match txn.get_edge(e).unwrap() {
            Some(edge) => {
                assert!(a != 1 && b != 1);
                assert_eq!((edge.src, edge.dst), (ids[a], ids[b]));
                assert_eq!(edge.edge_type, "R");
                assert_eq!(edge.properties.len(), 1);
                assert_eq!(edge.properties.get("n"), Some(&Value::Int(1)));
            }
            None => assert!(a == 1 || b == 1),
        }
    }
    txn.commit().unwrap();
}
