//! A graph database: a database whose trees hold a graph.

use crate::bytes::{bytes_equal, key_le, le64_bytes, lemma_le64_round_trip, push_le64};
use crate::datafile::DataFile;
use crate::graph::{GraphErr, GraphError};
use crate::graph::keys::{ADJ_KEY_LEN, LABEL_KEY_LEN};
use crate::graph::read_txn::GraphReadTxn;
use crate::graph::state::{
    graph_of, graph_ok, has_graph, GraphState, ADJACENCY_TREE, EDGES_TREE, LABEL_INDEX_TREE,
    MAGIC, MAGIC_KEY, META_TREE, NEXT_EDGE_KEY, NEXT_NODE_KEY, NODES_TREE,
};
use crate::graph::write_txn::GraphWriteTxn;
use crate::model::{is_range, MAX_KEY_SIZE};
use crate::mvcc::{MvccError, TreeId};
use crate::mvcc::audit::largest_key;
use crate::mvcc::crash::{accounted, lemma_opened_is_stored};
use crate::mvcc::database::{opt_bytes, open_error, recovered, reopened, replay_fits, Database};
use crate::mvcc::store::{Table, Tables};
use crate::mvcc::txn::{same_base, ReadTxn, WriteTxn, PAGES_PER_CHANGE};
use crate::pager::openable;
use crate::text::copy_str;
use crate::tree::pairs;
use vstd::prelude::*;

verus! {

broadcast use crate::bytes::group_byte_lengths;

/// A graph database.
pub struct GraphDb {
    pub db: Database,
}

/// A graph without nodes and edges, whose numbers start at 1.
pub open spec fn empty_graph() -> GraphState {
    GraphState {
        meta: Map::<Seq<u8>, Seq<u8>>::empty().insert(MAGIC_KEY@, MAGIC@).insert(
            NEXT_NODE_KEY@,
            le64_bytes(1),
        ).insert(NEXT_EDGE_KEY@, le64_bytes(1)),
        nodes: Map::empty(),
        edges: Map::empty(),
        adj: Map::empty(),
        labels: Map::empty(),
    }
}

/// The error that a database gives which is not marked as a graph.
pub open spec fn marker_error(t: Tables) -> Option<GraphErr> {
    if !t.contains_key(META_TREE) {
        Some(GraphErr::Mvcc(MvccError::TreeNotFound(TreeId(META_TREE))))
    } else if t[META_TREE].contains_key(MAGIC_KEY@) && t[META_TREE][MAGIC_KEY@] == MAGIC@ {
        None
    } else {
        Some(GraphErr::InvalidDatabase("missing or invalid magic marker"@))
    }
}

/// Whether a data file and a log are those of a database: every page that its
/// trees reach is there and well formed.
pub open spec fn sound_files(pages: Seq<Seq<u8>>, log: Option<Seq<u8>>) -> bool {
    &&& openable(recovered(pages, log))
    &&& replay_fits(pages, log)
    &&& forall|db: Database| #[trigger] reopened(pages, log, db) ==> db.wf()
}

impl GraphDb {
    /// Whether the database is well formed and holds a graph.
    pub open spec fn wf(&self) -> bool {
        &&& self.db.wf()
        &&& has_graph(self.db.tables())
        &&& graph_ok(self.graph())
    }

    /// The graph of the last commit.
    pub open spec fn graph(&self) -> GraphState {
        graph_of(self.db.tables())
    }

    /// Whether the pages of the last commit, opened by themselves, hold the
    /// database, and the log holds nothing that they do not.
    pub open spec fn settled(&self) -> bool {
        self.db.stored()
    }

    /// Creates a new graph database.
    pub fn create() -> (r: Result<Self, GraphError>)
        ensures
            r matches Ok(g) && {
                &&& g.wf()
                &&& g.graph() == empty_graph()
                &&& g.settled()
            },
    {
        let mut db = Database::create();
        match init_graph(&mut db) {
            Ok(_) => {
                proof {
                    lemma_empty_graph();
                }
                Ok(GraphDb { db })
            },
            Err(e) => Err(GraphError::Mvcc(e)),
        }
    }

    /// Opens an existing graph database from its data file and its log.
    pub fn open(file: DataFile, log: Option<Vec<u8>>) -> (r: Result<Self, GraphError>)
        requires
            file.inv(),
            sound_files(file@, opt_bytes(log)),
        ensures
            match r {
                Ok(g) => {
                    &&& open_error(file@, opt_bytes(log)) is None
                    &&& reopened(file@, opt_bytes(log), g.db)
                    &&& marker_error(g.db.tables()) is None
                    &&& has_graph(g.db.tables()) && graph_ok(g.graph()) ==> g.wf()
                },
                Err(e) => match open_error(file@, opt_bytes(log)) {
                    Some(m) => e@ == GraphErr::Mvcc(m),
                    None => exists|db: Database| #[trigger]
                        reopened(file@, opt_bytes(log), db) && marker_error(db.tables())
                            == Some(e@),
                },
            },
    {
        match Database::open(file, log) {
            Ok(db) => Self::from_database(db),
            Err(e) => Err(GraphError::Mvcc(e)),
        }
    }

    /// Opens an existing graph database as `open` does, from any data file and
    /// log. `None` where they are not those of a database, or where they are
    /// marked as a graph but hold none.
    pub fn try_open(file: DataFile, log: Option<Vec<u8>>) -> (r: Option<Result<Self, GraphError>>)
        requires
            file.inv(),
        ensures
            match r {
                Some(Ok(g)) => {
                    &&& open_error(file@, opt_bytes(log)) is None
                    &&& reopened(file@, opt_bytes(log), g.db)
                    &&& marker_error(g.db.tables()) is None
                    &&& g.wf()
                    &&& accounted(file@, opt_bytes(log)) ==> g.settled()
                },
                Some(Err(e)) => match open_error(file@, opt_bytes(log)) {
                    Some(m) => e@ == GraphErr::Mvcc(m),
                    None => exists|db: Database| #[trigger]
                        reopened(file@, opt_bytes(log), db) && marker_error(db.tables())
                            == Some(e@),
                },
                None => !sound_files(file@, opt_bytes(log)) || exists|db: Database| #[trigger]
                    reopened(file@, opt_bytes(log), db) && marker_error(db.tables()) is None && !(
                    has_graph(db.tables()) && graph_ok(graph_of(db.tables()))),
            },
    {
        let ghost pages = file@;
        let ghost bytes = opt_bytes(log);
        let db = match Database::try_open(file, log) {
            None => {
                return None;
            },
            Some(Err(e)) => {
                return Some(Err(GraphError::Mvcc(e)));
            },
            Some(Ok(db)) => db,
        };
        assert(db.pager@.base == db.pager@.file);
        if !db.is_sound() {
            assert(reopened(pages, bytes, db));
            return None;
        }
        match Self::from_database(db) {
            Err(e) => Some(Err(e)),
            Ok(g) => if g.is_graph() {
                proof {
                    if accounted(pages, bytes) {
                        lemma_opened_is_stored(pages, bytes, g.db);
                    }
                }
                Some(Ok(g))
            } else {
                assert(reopened(pages, bytes, g.db));
                None
            },
        }
    }

    /// A graph database from a database that is marked as one.
    fn from_database(db: Database) -> (r: Result<Self, GraphError>)
        requires
            db.wf(),
        ensures
            match r {
                Ok(g) => g.db == db && marker_error(db.tables()) is None,
                Err(e) => marker_error(db.tables()) == Some(e@),
            },
    {
        let rtx = db.read_txn();
        let key = MAGIC_KEY;
        let marker = MAGIC;
        match rtx.get(TreeId(META_TREE), key.as_slice()) {
            Ok(Some(v)) => {
                if !bytes_equal(v.as_slice(), marker.as_slice()) {
                    return Err(
                        GraphError::InvalidDatabase(copy_str("missing or invalid magic marker")),
                    );
                }
            },
            Ok(None) => {
                return Err(
                    GraphError::InvalidDatabase(copy_str("missing or invalid magic marker")),
                );
            },
            Err(e) => {
                return Err(GraphError::Mvcc(e));
            },
        }
        Ok(GraphDb { db })
    }

    /// Whether the trees of a graph are there, with the counters, and the keys
    /// of its indexes have their lengths.
    pub fn is_graph(&self) -> (r: bool)
        requires
            self.db.wf(),
        ensures
            r == (has_graph(self.db.tables()) && graph_ok(self.graph())),
    {
        graph_there(&self.db.read_txn())
    }

    /// Takes the database apart into its data file as of the last commit and
    /// its log.
    pub fn into_files(self) -> (r: (DataFile, Vec<u8>))
        requires
            self.db.pager.inv(),
        ensures
            r.0.inv(),
            r.0@ == self.db.pager@.base,
            r.1@ == self.db.wal@,
    {
        self.db.into_files()
    }

    /// Begins a read-only transaction, which sees the last commit.
    pub fn read_txn(&self) -> (r: GraphReadTxn<'_>)
        requires
            self.wf(),
        ensures
            r.wf(),
            r.graph() == self.graph(),
    {
        GraphReadTxn { txn: self.db.read_txn() }
    }

    /// Begins a read-write transaction.
    pub fn write_txn(&mut self) -> (r: GraphWriteTxn<'_>)
        requires
            old(self).wf(),
        ensures
            *final(r.txn.db) == final(self).db,
            same_base(old(self).db, *r.txn.db),
            r.txn.db.pager@ == old(self).db.pager@.kept(),
            r.wf(),
            r.graph() == old(self).graph(),
    {
        GraphWriteTxn { txn: self.db.write_txn() }
    }
}

fn graph_there(rtx: &ReadTxn<'_>) -> (r: bool)
    requires
        rtx.wf(),
    ensures
        r == (has_graph(rtx.tables()) && graph_ok(graph_of(rtx.tables()))),
{
    if !has_tree(rtx, NODES_TREE) || !has_tree(rtx, EDGES_TREE) || !has_counters(rtx) {
        return false;
    }
    let adj = keys_have_length(rtx, ADJACENCY_TREE, ADJ_KEY_LEN);
    let labels = keys_have_length(rtx, LABEL_INDEX_TREE, LABEL_KEY_LEN);
    proof {
        let g = graph_of(rtx.tables());
        assert(g.adj == rtx.tables()[ADJACENCY_TREE]);
        assert(g.labels == rtx.tables()[LABEL_INDEX_TREE]);
    }
    adj && labels
}

fn has_tree(rtx: &ReadTxn<'_>, id: u32) -> (r: bool)
    requires
        rtx.wf(),
    ensures
        r == rtx.tables().contains_key(id),
{
    let key: Vec<u8> = Vec::new();
    rtx.get(TreeId(id), key.as_slice()).is_ok()
}

fn has_counters(rtx: &ReadTxn<'_>) -> (r: bool)
    requires
        rtx.wf(),
    ensures
        r == (rtx.tables().contains_key(META_TREE) && rtx.tables()[META_TREE].contains_key(
            NEXT_NODE_KEY@,
        ) && rtx.tables()[META_TREE][NEXT_NODE_KEY@].len() == 8
            && rtx.tables()[META_TREE].contains_key(NEXT_EDGE_KEY@)
            && rtx.tables()[META_TREE][NEXT_EDGE_KEY@].len() == 8),
{
    let node_key = NEXT_NODE_KEY;
    let edge_key = NEXT_EDGE_KEY;
    has_counter(rtx, node_key.as_slice()) && has_counter(rtx, edge_key.as_slice())
}

fn has_counter(rtx: &ReadTxn<'_>, key: &[u8]) -> (r: bool)
    requires
        rtx.wf(),
        key@.len() <= MAX_KEY_SIZE,
    ensures
        r == (rtx.tables().contains_key(META_TREE) && rtx.tables()[META_TREE].contains_key(key@)
            && rtx.tables()[META_TREE][key@].len() == 8),
{
    match rtx.get(TreeId(META_TREE), key) {
        Ok(Some(v)) => v.len() == 8,
        _ => false,
    }
}

fn keys_have_length(rtx: &ReadTxn<'_>, id: u32, len: usize) -> (r: bool)
    requires
        rtx.wf(),
    ensures
        r == (rtx.tables().contains_key(id) && forall|k: Seq<u8>| #[trigger]
            rtx.tables()[id].contains_key(k) ==> k.len() == len),
{
    let start: Vec<u8> = Vec::new();
    let end = largest_key();
    let entries = match rtx.range(TreeId(id), start.as_slice(), end.as_slice()) {
        Ok(e) => e,
        Err(_) => {
            return false;
        },
    };
    let ghost m = rtx.tables()[id];
    let ghost s = pairs(entries@);
    let mut i: usize = 0;
    while i < entries.len()
        invariant
            m == rtx.tables()[id],
            s == pairs(entries@),
            is_range(s, m, start@, end@),
            i <= entries@.len(),
            forall|j: int| 0 <= j < i ==> (#[trigger] s[j]).0.len() == len,
        decreases entries@.len() - i,
    {
        assert(s[i as int] == (entries@[i as int].0@, entries@[i as int].1@));
        if entries[i].0.len() != len {
            proof {
                assert(s.contains((s[i as int].0, s[i as int].1)));
                assert(m.contains_key(s[i as int].0));
            }
            return false;
        }
        i = i + 1;
    }
    proof {
        assert forall|k: Seq<u8>| #[trigger] m.contains_key(k) implies k.len() == len by {
            rtx.lemma_keys_short(id, k);
            assert(key_le(start@, k)) by {
                if k.len() == 0 {
                    assert(start@ =~= k);
                }
            }
            assert(key_le(k, end@));
            assert(s.contains((k, m[k])));
            let j = s.index_of((k, m[k]));
            assert(s[j].0.len() == len);
        }
    }
    true
}

/// The trees of an empty graph before anything is in them.
spec fn bare_tables(n: u32) -> Tables {
    Map::new(|i: u32| 1 <= i <= n, |i: u32| Map::<Seq<u8>, Seq<u8>>::empty())
}

/// Adds one of the trees of a graph, the one with number `n`.
fn add_tree(wtx: &mut WriteTxn<'_>, n: u32)
    requires
        old(wtx).wf(),
        1 <= n <= LABEL_INDEX_TREE,
        old(wtx).tables() == bare_tables((n - 1) as u32),
        old(wtx).next_page() + PAGES_PER_CHANGE <= u32::MAX,
    ensures
        *final(final(wtx).db) == *final(old(wtx).db),
        final(wtx).wf(),
        same_base(*old(wtx).db, *final(wtx).db),
        final(wtx).next_page() <= old(wtx).next_page() + PAGES_PER_CHANGE,
        final(wtx).tables() == bare_tables(n),
{
    let r = wtx.create_tree();
    proof {
        let id = r->Ok_0.0;
        if n > 1 {
            assert(old(wtx).tables().contains_key((n - 1) as u32));
        }
        if id != 1 {
            assert(old(wtx).tables().contains_key((id - 1) as u32));
        }
        assert(id == n);
        assert(wtx.tables() =~= bare_tables(n));
    }
}

/// Sets the marker and the counters of an empty graph.
fn add_counters(wtx: &mut WriteTxn<'_>)
    requires
        old(wtx).wf(),
        old(wtx).tables() == bare_tables(LABEL_INDEX_TREE),
        old(wtx).next_page() + 3 * PAGES_PER_CHANGE <= u32::MAX,
    ensures
        *final(final(wtx).db) == *final(old(wtx).db),
        final(wtx).wf(),
        same_base(*old(wtx).db, *final(wtx).db),
        final(wtx).next_page() <= old(wtx).next_page() + 3 * PAGES_PER_CHANGE,
        has_graph(final(wtx).tables()),
        graph_of(final(wtx).tables()) == empty_graph(),
{
    let magic_key = MAGIC_KEY;
    let magic = MAGIC;
    let node_key = NEXT_NODE_KEY;
    let edge_key = NEXT_EDGE_KEY;
    let mut one: Vec<u8> = Vec::new();
    push_le64(&mut one, 1);
    proof {
        assert(one@ =~= le64_bytes(1));
        lemma_le64_round_trip(1);
    }
    let _ = wtx.insert(TreeId(META_TREE), magic_key.as_slice(), magic.as_slice());
    let _ = wtx.insert(TreeId(META_TREE), node_key.as_slice(), one.as_slice());
    let _ = wtx.insert(TreeId(META_TREE), edge_key.as_slice(), one.as_slice());
    assert(graph_of(wtx.tables()) =~= empty_graph());
}

proof fn lemma_empty_graph()
    ensures
        graph_ok(empty_graph()),
{
    lemma_le64_round_trip(1);
    assert(NEXT_NODE_KEY@[5] != NEXT_EDGE_KEY@[5]);
    assert(MAGIC_KEY@.len() != NEXT_NODE_KEY@.len());
}

/// Makes the trees of an empty graph.
fn init_graph(db: &mut Database) -> (r: Result<(), MvccError>)
    requires
        old(db).wf(),
        old(db).tables() == Map::<u32, Table>::empty(),
        old(db).pager@.meta.next_page_id <= 2,
        old(db).pager@.freelist.len() == 0,
        old(db).current_txn_id == 0,
        old(db).wal@.len() == 0,
    ensures
        r is Ok,
        final(db).wf(),
        has_graph(final(db).tables()),
        graph_of(final(db).tables()) == empty_graph(),
        final(db).stored(),
{
    let mut wtx = db.write_txn();
    assert(wtx.tables() =~= bare_tables(0));
    add_tree(&mut wtx, 1);
    add_tree(&mut wtx, 2);
    add_tree(&mut wtx, 3);
    add_tree(&mut wtx, 4);
    add_tree(&mut wtx, 5);
    add_counters(&mut wtx);
    wtx.commit()
}

} // verus!
