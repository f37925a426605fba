//! What survives a restart, and consistency under long runs of operations.

use gemgraph::graph::db::GraphDb;
use gemgraph::graph::types::{Direction, EdgeId, NodeId, Properties, Value};
use std::collections::{HashMap, HashSet};

fn props(pairs: &[(&str, Value)]) -> Properties {
    let mut r = Properties::new();
    for (k, v) in pairs {
        r.insert(k.to_string(), v.clone());
    }
    r
}

/// Closes a database and opens its data file and its log again.
fn reopen(db: GraphDb) -> GraphDb {
    let (file, log) = db.into_files();
    GraphDb::open(file, Some(log)).unwrap()
}

/// Committed data from multiple txns survives unclean shutdown and reopen.
#[test]
fn committed_data_survives_reopen() {
    let mut committed_ids = Vec::new();

    let mut db;
    {
        db = GraphDb::create().unwrap();

        // Batch 1: committed
        let mut wtx = db.write_txn();
        for i in 0..5 {
            let id = wtx
                .create_node("Batch1", props(&[("idx", Value::Int(i))]))
                .unwrap();
            committed_ids.push(id);
        }
        wtx.commit().unwrap();

        // Batch 2: committed
        let mut wtx = db.write_txn();
        for i in 5..10 {
            let id = wtx
                .create_node("Batch2", props(&[("idx", Value::Int(i))]))
                .unwrap();
            committed_ids.push(id);
        }
        wtx.commit().unwrap();

        // Batch 3: uncommitted -- just drop the txn, then drop the db
        let mut wtx = db.write_txn();
        for i in 100..110 {
            wtx.create_node("Uncommitted", props(&[("idx", Value::Int(i))]))
                .unwrap();
        }
        // Drop txn without commit, then db drops (simulates unclean shutdown)
    }

    // Reopen -- WAL recovery runs here
    let db = reopen(db);
    let rtx = db.read_txn();

    // All 10 committed nodes must be present with correct data
    for &nid in &committed_ids {
        let node = rtx.get_node(nid).unwrap();
        assert!(node.is_some(), "committed node {} missing after recovery", nid);
    }

    // Verify Batch1 nodes
    let b1 = rtx.nodes_by_label("Batch1").unwrap();
    assert_eq!(b1.len(), 5, "expected 5 Batch1 nodes, found {}", b1.len());

    // Verify Batch2 nodes
    let b2 = rtx.nodes_by_label("Batch2").unwrap();
    assert_eq!(b2.len(), 5, "expected 5 Batch2 nodes, found {}", b2.len());

    // Verify properties are intact on a sample node
    let sample = rtx.get_node(committed_ids[0]).unwrap().unwrap();
    assert_eq!(sample.label, "Batch1");
    assert!(matches!(sample.properties.get("idx"), Some(Value::Int(0))));
}

/// 500 nodes across 50 commit cycles survive reopen with correct properties.
#[test]
fn data_integrity_many_commits() {
    let mut all_ids = Vec::new();

    let mut db;
    {
        db = GraphDb::create().unwrap();
        for batch in 0..50u64 {
            let mut wtx = db.write_txn();
            for item in 0..10u64 {
                let global = batch * 10 + item;
                let id = wtx
                    .create_node(
                        "Item",
                        props(&[
                            ("batch", Value::Int(batch as i64)),
                            ("item", Value::Int(item as i64)),
                            ("global", Value::Int(global as i64)),
                        ]),
                    )
                    .unwrap();
                all_ids.push((id, batch, item, global));
            }
            wtx.commit().unwrap();
        }
    }

    // Reopen and verify all 500 nodes
    let db = reopen(db);
    let rtx = db.read_txn();

    let items = rtx.nodes_by_label("Item").unwrap();
    assert_eq!(items.len(), 500, "expected 500 nodes after reopen");

    // Verify every node has correct properties
    for &(nid, batch, item, global) in &all_ids {
        let node = rtx.get_node(nid).unwrap().expect("node missing");
        assert_eq!(node.properties.get("batch"), Some(&Value::Int(batch as i64)));
        assert_eq!(node.properties.get("item"), Some(&Value::Int(item as i64)));
        assert_eq!(node.properties.get("global"), Some(&Value::Int(global as i64)));
    }
}

/// 20 iterations of open-commit-close, verifying cumulative data each cycle.
#[test]
fn repeated_open_commit_close_cycles() {
    let mut expected_total = 0u64;

    let mut kept: Option<GraphDb> = None;
    for iteration in 0..20u64 {
        let mut db = match kept {
            None => GraphDb::create().unwrap(),
            Some(db) => reopen(db),
        };

        // Verify committed count so far
        {
            let rtx = db.read_txn();
            let nodes = rtx.nodes_by_label("Durable").unwrap();
            assert_eq!(
                nodes.len() as u64, expected_total,
                "iteration {}: expected {} durable nodes, found {}",
                iteration, expected_total, nodes.len()
            );
        }

        // Commit 5 nodes
        {
            let mut wtx = db.write_txn();
            for j in 0..5u64 {
                let global = iteration * 5 + j;
                wtx.create_node(
                    "Durable",
                    props(&[
                        ("iter", Value::Int(iteration as i64)),
                        ("global", Value::Int(global as i64)),
                    ]),
                )
                .unwrap();
            }
            wtx.commit().unwrap();
        }
        expected_total += 5;
        // closed here, and opened again on the next iteration
        kept = Some(db);
    }

    // Final verification after all cycles
    let db = reopen(kept.unwrap());
    let rtx = db.read_txn();

    let durable = rtx.nodes_by_label("Durable").unwrap();
    assert_eq!(
        durable.len(),
        100,
        "expected 100 durable nodes (20 iterations * 5 nodes)"
    );

    // Verify complete coverage: all global values 0..100 exist
    let mut globals: Vec<i64> = durable
        .iter()
        .map(|&nid| {
            let node = rtx.get_node(nid).unwrap().unwrap();
            match node.properties.get("global") {
                Some(Value::Int(v)) => *v,
                _ => panic!("missing global property"),
            }
        })
        .collect();
    globals.sort();
    let expected: Vec<i64> = (0..100).collect();
    assert_eq!(globals, expected, "not all global values present");
}

// Sequential write-read consistency

/// Verifies that reads always see a consistent snapshot across many rapid
/// commit cycles. After each batch commit, ALL previously committed data
/// must be visible with correct properties.
#[test]
fn sequential_write_read_consistency() {
    let mut db = GraphDb::create().unwrap();

    // Oracle: track all node ids and their batch_id
    let mut oracle: Vec<(NodeId, i64)> = Vec::new();

    for i in 0..100i64 {
        // Write batch of 10 nodes
        {
            let mut wtx = db.write_txn();
            for j in 0..10i64 {
                let id = wtx
                    .create_node(
                        "Batch",
                        props(&[
                            ("batch_id", Value::Int(i)),
                            ("item", Value::Int(j)),
                        ]),
                    )
                    .unwrap();
                oracle.push((id, i));
            }
            wtx.commit().unwrap();
        }

        // Verify ALL nodes from batches 0..=i exist with correct batch_ids
        {
            let rtx = db.read_txn();
            for &(nid, expected_batch) in &oracle {
                let node = rtx
                    .get_node(nid)
                    .unwrap()
                    .unwrap_or_else(|| panic!("node {} missing at iteration {}", nid, i));
                assert_eq!(
                    node.properties.get("batch_id"),
                    Some(&Value::Int(expected_batch)),
                    "wrong batch_id for node {} at iteration {}",
                    nid,
                    i
                );
            }

            // Verify total node count
            let all = rtx.nodes_by_label("Batch").unwrap();
            assert_eq!(
                all.len(),
                ((i + 1) * 10) as usize,
                "wrong node count at iteration {}",
                i
            );
        }
    }

    // Final verification: all 1000 nodes present
    let rtx = db.read_txn();
    let all = rtx.nodes_by_label("Batch").unwrap();
    assert_eq!(all.len(), 1000, "expected 1000 nodes in final read");
}

// Snapshot isolation (sequential point-in-time reads)

/// Since read_txn borrows &self and write_txn borrows &mut self, they cannot
/// coexist. Instead we verify that each successive read_txn sees exactly the
/// state committed up to that point.
#[test]
fn snapshot_isolation_sequential() {
    let mut db = GraphDb::create().unwrap();

    // Write batch A: 50 nodes
    {
        let mut wtx = db.write_txn();
        for i in 0..50i64 {
            wtx.create_node("Alpha", props(&[("val", Value::Int(i))]))
                .unwrap();
        }
        wtx.commit().unwrap();
    }

    // Snapshot after batch A: exactly 50 Alpha nodes, 0 Beta nodes
    {
        let rtx = db.read_txn();
        let alphas = rtx.nodes_by_label("Alpha").unwrap();
        assert_eq!(alphas.len(), 50, "snapshot A: expected 50 Alpha nodes");
        let betas = rtx.nodes_by_label("Beta").unwrap();
        assert_eq!(betas.len(), 0, "snapshot A: expected 0 Beta nodes");
    }

    // Write batch B: 50 nodes with different label
    {
        let mut wtx = db.write_txn();
        for i in 0..50i64 {
            wtx.create_node("Beta", props(&[("val", Value::Int(i + 100))]))
                .unwrap();
        }
        wtx.commit().unwrap();
    }

    // Snapshot after batch B: 50 Alpha + 50 Beta
    {
        let rtx = db.read_txn();
        let alphas = rtx.nodes_by_label("Alpha").unwrap();
        assert_eq!(alphas.len(), 50, "snapshot B: expected 50 Alpha nodes");
        let betas = rtx.nodes_by_label("Beta").unwrap();
        assert_eq!(betas.len(), 50, "snapshot B: expected 50 Beta nodes");

        // Verify Alpha values are 0..50
        let mut alpha_vals: Vec<i64> = alphas
            .iter()
            .map(|&nid| {
                let node = rtx.get_node(nid).unwrap().unwrap();
                match node.properties.get("val") {
                    Some(Value::Int(v)) => *v,
                    other => panic!("expected Int, got {:?}", other),
                }
            })
            .collect();
        alpha_vals.sort();
        assert_eq!(alpha_vals, (0..50).collect::<Vec<_>>());

        // Verify Beta values are 100..150
        let mut beta_vals: Vec<i64> = betas
            .iter()
            .map(|&nid| {
                let node = rtx.get_node(nid).unwrap().unwrap();
                match node.properties.get("val") {
                    Some(Value::Int(v)) => *v,
                    other => panic!("expected Int, got {:?}", other),
                }
            })
            .collect();
        beta_vals.sort();
        assert_eq!(beta_vals, (100..150).collect::<Vec<_>>());
    }

    // Write batch C: modify some Alpha properties
    {
        let rtx = db.read_txn();
        let alphas = rtx.nodes_by_label("Alpha").unwrap();
        let first_ten: Vec<NodeId> = alphas.iter().take(10).copied().collect();
        drop(rtx);

        let mut wtx = db.write_txn();
        for &nid in &first_ten {
            wtx.set_node_property(nid, "modified", Value::Bool(true))
                .unwrap();
        }
        wtx.commit().unwrap();
    }

    // Snapshot after batch C: properties updated
    {
        let rtx = db.read_txn();
        let alphas = rtx.nodes_by_label("Alpha").unwrap();
        let modified_count = alphas
            .iter()
            .filter(|&&nid| {
                let node = rtx.get_node(nid).unwrap().unwrap();
                node.properties.get("modified") == Some(&Value::Bool(true))
            })
            .count();
        assert_eq!(modified_count, 10, "expected 10 modified Alpha nodes");
    }
}

// Abort isolation

/// Committed-only visibility: verifies that committed writes survive across
/// database close/reopen cycles.
#[test]
fn committed_data_across_reopen_cycles() {
    // Cycle 1: create and commit 100 nodes
    let mut db;
    {
        db = GraphDb::create().unwrap();
        let mut wtx = db.write_txn();
        for i in 0..100i64 {
            wtx.create_node("Real", props(&[("val", Value::Int(i))]))
                .unwrap();
        }
        wtx.commit().unwrap();
    }

    // Reopen and verify
    {
        db = reopen(db);
        let rtx = db.read_txn();
        let reals = rtx.nodes_by_label("Real").unwrap();
        assert_eq!(reals.len(), 100, "expected 100 Real nodes after reopen");

        let mut vals: Vec<i64> = reals
            .iter()
            .map(|&nid| {
                let node = rtx.get_node(nid).unwrap().unwrap();
                match node.properties.get("val") {
                    Some(Value::Int(v)) => *v,
                    other => panic!("expected Int, got {:?}", other),
                }
            })
            .collect();
        vals.sort();
        assert_eq!(vals, (0..100).collect::<Vec<_>>());
    }

    // 20 more commit+reopen cycles, each adding 10 nodes
    for round in 0..20i64 {
        {
            db = reopen(db);
            let mut wtx = db.write_txn();
            for j in 0..10i64 {
                wtx.create_node(
                    "Extra",
                    props(&[("round", Value::Int(round)), ("j", Value::Int(j))]),
                )
                .unwrap();
            }
            wtx.commit().unwrap();
        }

        // Verify cumulative state after reopen
        db = reopen(db);
        let rtx = db.read_txn();
        let reals = rtx.nodes_by_label("Real").unwrap();
        assert_eq!(reals.len(), 100, "round {round}: Real nodes wrong");
        let extras = rtx.nodes_by_label("Extra").unwrap();
        assert_eq!(
            extras.len(),
            ((round + 1) * 10) as usize,
            "round {round}: Extra nodes wrong"
        );
    }

    // Final: 100 Real + 200 Extra = 300 total
    let db = reopen(db);
    let rtx = db.read_txn();
    assert_eq!(rtx.nodes_by_label("Real").unwrap().len(), 100);
    assert_eq!(rtx.nodes_by_label("Extra").unwrap().len(), 200);
}

// Interleaved operations stress test

/// Performs 200 iterations of mixed graph operations (create/delete nodes
/// and edges, set properties), verifying graph invariants after each commit.
#[test]
fn interleaved_operations_stress() {
    let mut db = GraphDb::create().unwrap();

    // Oracle state
    let mut live_nodes: HashSet<NodeId> = HashSet::new();
    let mut live_edges: HashMap<EdgeId, (NodeId, NodeId)> = HashMap::new();
    let mut node_list: Vec<NodeId> = Vec::new(); // for indexed access

    for iteration in 0..200u64 {
        let op = iteration % 5;

        match op {
            // 0: Create a batch of nodes
            0 => {
                let mut wtx = db.write_txn();
                for j in 0..3u64 {
                    let id = wtx
                        .create_node(
                            "Stress",
                            props(&[("iter", Value::Int(iteration as i64)),
                                    ("j", Value::Int(j as i64))]),
                        )
                        .unwrap();
                    live_nodes.insert(id);
                    node_list.push(id);
                }
                wtx.commit().unwrap();
            }
            // 1: Create edges between existing nodes
            1 => {
                if node_list.len() >= 2 {
                    let mut wtx = db.write_txn();
                    // Connect some pairs based on iteration for determinism
                    let count = node_list.len();
                    for k in 0..3.min(count / 2) {
                        let src_idx = (iteration as usize * 7 + k) % count;
                        let dst_idx = (iteration as usize * 13 + k + 1) % count;
                        let src = node_list[src_idx];
                        let dst = node_list[dst_idx];
                        if live_nodes.contains(&src) && live_nodes.contains(&dst) && src != dst {
                            let eid = wtx
                                .create_edge(src, dst, "LINK", props(&[
                                    ("iter", Value::Int(iteration as i64)),
                                ]))
                                .unwrap();
                            live_edges.insert(eid, (src, dst));
                        }
                    }
                    wtx.commit().unwrap();
                }
            }
            // 2: Set properties on existing nodes
            2 => {
                if !node_list.is_empty() {
                    let mut wtx = db.write_txn();
                    let count = node_list.len();
                    for k in 0..5.min(count) {
                        let idx = (iteration as usize * 11 + k) % count;
                        let nid = node_list[idx];
                        if live_nodes.contains(&nid) {
                            let _ = wtx.set_node_property(
                                nid,
                                "updated_at",
                                Value::Int(iteration as i64),
                            );
                        }
                    }
                    wtx.commit().unwrap();
                }
            }
            // 3: Delete some edges
            3 => {
                let edges_to_delete: Vec<EdgeId> = live_edges
                    .keys()
                    .take(2)
                    .copied()
                    .collect();
                if !edges_to_delete.is_empty() {
                    let mut wtx = db.write_txn();
                    for eid in &edges_to_delete {
                        // Edge may already be gone via cascade; tolerate false
                        let _ = wtx.delete_edge(*eid);
                        live_edges.remove(eid);
                    }
                    wtx.commit().unwrap();
                }
            }
            // 4: Delete a node (and verify cascading edge removal)
            4 => {
                if node_list.len() > 10 {
                    let idx = (iteration as usize * 3) % node_list.len();
                    let nid = node_list[idx];
                    if live_nodes.contains(&nid) {
                        let mut wtx = db.write_txn();
                        let deleted = wtx.delete_node(nid).unwrap_or(false);
                        wtx.commit().unwrap();

                        if deleted {
                            live_nodes.remove(&nid);
                            // Remove all edges involving this node from oracle
                            live_edges.retain(|_, (src, dst)| *src != nid && *dst != nid);
                        }
                    }
                }
            }
            _ => unreachable!(),
        }

        // Reconcile oracle with DB reality — since all ops are committed,
        // the DB is the source of truth. Sync oracle to handle cascading
        // deletes that our simple oracle tracking may have missed.
        let rtx = db.read_txn();

        // Remove nodes from oracle that the DB no longer has
        live_nodes.retain(|&nid| rtx.get_node(nid).unwrap().is_some());
        // Remove edges from oracle that the DB no longer has
        live_edges.retain(|&eid, _| rtx.get_edge(eid).unwrap().is_some());

        // Invariant: every oracle-live edge's endpoints are live nodes
        for (&eid, &(src, dst)) in &live_edges {
            assert!(
                live_nodes.contains(&src),
                "iter {}: edge {} src {} not in live_nodes",
                iteration, eid, src
            );
            assert!(
                live_nodes.contains(&dst),
                "iter {}: edge {} dst {} not in live_nodes",
                iteration, eid, dst
            );
        }

        // Invariant: neighbors() returns valid node ids
        for &nid in live_nodes.iter().take(10) {
            let out = rtx.neighbors(nid, Direction::Out, None).unwrap();
            for (eid, neighbor) in &out {
                assert!(
                    rtx.get_node(*neighbor).unwrap().is_some(),
                    "iter {}: neighbor {} of node {} via edge {} is invalid",
                    iteration, neighbor, nid, eid
                );
            }
        }
    }

    // Final: DB is consistent — every node referenced by an edge exists
    let rtx = db.read_txn();
    for (&eid, &(src, dst)) in &live_edges {
        assert!(rtx.get_node(src).unwrap().is_some(), "final: edge {} src {} missing", eid, src);
        assert!(rtx.get_node(dst).unwrap().is_some(), "final: edge {} dst {} missing", eid, dst);
    }
}

// Large transaction stress

/// A single large transaction creates 5000 nodes and 10000 edges, then
/// verifies the entire graph is readable and consistent.
#[test]
fn large_transaction_stress() {
    let mut db = GraphDb::create().unwrap();

    let mut node_ids: Vec<NodeId> = Vec::with_capacity(5000);
    let mut edge_oracle: Vec<(EdgeId, NodeId, NodeId)> = Vec::with_capacity(10000);

    // Single massive write transaction
    {
        let mut wtx = db.write_txn();

        // Create 5000 nodes
        for i in 0..5000i64 {
            let id = wtx
                .create_node(
                    "Big",
                    props(&[
                        ("index", Value::Int(i)),
                        ("data", Value::String(format!("node-{}", i))),
                    ]),
                )
                .unwrap();
            node_ids.push(id);
        }

        // Create 10000 edges (deterministic pseudo-random graph)
        for i in 0..10000u64 {
            // Simple deterministic index selection
            let src_idx = (i as usize * 7 + 3) % 5000;
            let dst_idx = (i as usize * 13 + 17) % 5000;
            if src_idx == dst_idx {
                // Skip self-loops, create to next node instead
                let dst_idx = (dst_idx + 1) % 5000;
                let eid = wtx
                    .create_edge(
                        node_ids[src_idx],
                        node_ids[dst_idx],
                        "CONNECTS",
                        props(&[("edge_idx", Value::Int(i as i64))]),
                    )
                    .unwrap();
                edge_oracle.push((eid, node_ids[src_idx], node_ids[dst_idx]));
            } else {
                let eid = wtx
                    .create_edge(
                        node_ids[src_idx],
                        node_ids[dst_idx],
                        "CONNECTS",
                        props(&[("edge_idx", Value::Int(i as i64))]),
                    )
                    .unwrap();
                edge_oracle.push((eid, node_ids[src_idx], node_ids[dst_idx]));
            }
        }

        wtx.commit().unwrap();
    }

    // Read transaction: verify all 5000 nodes exist
    {
        let rtx = db.read_txn();
        let all = rtx.nodes_by_label("Big").unwrap();
        assert_eq!(all.len(), 5000, "expected 5000 Big nodes");

        // Verify every node by ID
        for (i, &nid) in node_ids.iter().enumerate() {
            let node = rtx
                .get_node(nid)
                .unwrap()
                .unwrap_or_else(|| panic!("node {} (index {}) missing", nid, i));
            assert_eq!(node.properties.get("index"), Some(&Value::Int(i as i64)));
            assert_eq!(
                node.properties.get("data"),
                Some(&Value::String(format!("node-{}", i)))
            );
        }
    }

    // Verify a sample of edges (every 10th)
    {
        let rtx = db.read_txn();
        for (eid, expected_src, expected_dst) in edge_oracle.iter().step_by(10) {
            let edge = rtx
                .get_edge(*eid)
                .unwrap()
                .unwrap_or_else(|| panic!("edge {} missing", eid));
            assert_eq!(edge.src, *expected_src, "edge {} wrong src", eid);
            assert_eq!(edge.dst, *expected_dst, "edge {} wrong dst", eid);
            assert_eq!(edge.edge_type, "CONNECTS");
        }
    }

    // Verify neighbors() for a sample of nodes
    {
        let rtx = db.read_txn();

        // Build expected adjacency from oracle
        let mut expected_out: HashMap<NodeId, Vec<(EdgeId, NodeId)>> = HashMap::new();
        let mut expected_in: HashMap<NodeId, Vec<(EdgeId, NodeId)>> = HashMap::new();
        for &(eid, src, dst) in &edge_oracle {
            expected_out.entry(src).or_default().push((eid, dst));
            expected_in.entry(dst).or_default().push((eid, src));
        }

        // Check every 50th node's outgoing neighbors
        for &nid in node_ids.iter().step_by(50) {
            let out = rtx.neighbors(nid, Direction::Out, Some("CONNECTS")).unwrap();
            let out_set: HashSet<(EdgeId, NodeId)> = out.into_iter().collect();
            let expected_set: HashSet<(EdgeId, NodeId)> = expected_out
                .get(&nid)
                .cloned()
                .unwrap_or_default()
                .into_iter()
                .collect();
            assert_eq!(
                out_set, expected_set,
                "outgoing neighbors mismatch for node {}",
                nid
            );

            let inc = rtx.neighbors(nid, Direction::In, Some("CONNECTS")).unwrap();
            let inc_set: HashSet<(EdgeId, NodeId)> = inc.into_iter().collect();
            let expected_inc_set: HashSet<(EdgeId, NodeId)> = expected_in
                .get(&nid)
                .cloned()
                .unwrap_or_default()
                .into_iter()
                .collect();
            assert_eq!(
                inc_set, expected_inc_set,
                "incoming neighbors mismatch for node {}",
                nid
            );
        }
    }
}
