//! What variables of a query stand for.

use crate::graph::types::{EdgeId, NodeId};
use crate::text::{copy_str, str_equal};
use vstd::prelude::*;

verus! {

/// What a variable stands for.
#[derive(Debug, Clone, Copy, PartialEq, Eq, Structural)]
pub enum Binding {
    Node(NodeId),
    Edge(EdgeId),
}

/// What variables stand for, as a value.
pub type EnvMap = Map<Seq<char>, Binding>;

/// The name under which the node that a path has reached is kept.
pub open spec fn last_node_key() -> Seq<char> {
    "__last_node__"@
}

spec fn entries_map(s: Seq<(String, Binding)>) -> EnvMap
    decreases s.len(),
{
    if s.len() == 0 {
        Map::empty()
    } else {
        entries_map(s.drop_last()).insert(s.last().0@, s.last().1)
    }
}

/// What a name stands for.
pub open spec fn env_get(m: EnvMap, key: Seq<char>) -> Option<Binding> {
    if m.contains_key(key) {
        Some(m[key])
    } else {
        None
    }
}

/// Whether `r` is the largest node that a name stands for, or none is.
pub open spec fn is_largest_node(m: EnvMap, r: Option<u64>) -> bool {
    match r {
        Some(n) => {
            &&& exists|k: Seq<char>|
                k != last_node_key() && #[trigger] env_get(m, k) == Some(Binding::Node(n))
            &&& forall|k: Seq<char>, x: u64|
                k != last_node_key() && #[trigger] env_get(m, k) == Some(Binding::Node(x))
                    && #[trigger] any_node(x) ==> x <= n
        },
        None => forall|k: Seq<char>|
            k != last_node_key() ==> !(#[trigger] env_get(m, k) matches Some(Binding::Node(_))),
    }
}

/// Any number of a node.
pub open spec fn any_node(x: u64) -> bool {
    true
}

/// The largest node that a name stands for.
pub open spec fn largest_node(m: EnvMap) -> Option<u64> {
    choose|r: Option<u64>| #[trigger] is_largest_node(m, r)
}

/// What variables stand for. A later entry for a name hides an earlier one.
pub struct Env {
    entries: Vec<(String, Binding)>,
}

impl View for Env {
    type V = EnvMap;

    closed spec fn view(&self) -> EnvMap {
        entries_map(self.entries@)
    }
}

proof fn lemma_hidden(s: Seq<(String, Binding)>, i: int, key: Seq<char>)
    requires
        0 <= i <= s.len(),
        forall|j: int| i <= j < s.len() ==> (#[trigger] s[j]).0@ != key,
    ensures
        env_get(entries_map(s), key) == env_get(entries_map(s.take(i)), key),
    decreases s.len() - i,
{
    if i == s.len() {
        assert(s.take(i) =~= s);
    } else {
        let d = s.drop_last();
        assert forall|j: int| i <= j < d.len() implies (#[trigger] d[j]).0@ != key by {
            assert(s[j].0@ != key);
        }
        lemma_hidden(d, i, key);
        assert(d.take(i) =~= s.take(i));
        assert(s[s.len() - 1].0@ != key);
    }
}

proof fn lemma_largest_unique(m: EnvMap, a: Option<u64>, b: Option<u64>)
    requires
        is_largest_node(m, a),
        is_largest_node(m, b),
    ensures
        a == b,
{
    match (a, b) {
        (Some(x), Some(y)) => {
            assert(any_node(x) && any_node(y));
        },
        (Some(x), None) => {
            let k = choose|k: Seq<char>|
                k != last_node_key() && #[trigger] env_get(m, k) == Some(Binding::Node(x));
            assert(env_get(m, k) == Some(Binding::Node(x)));
        },
        (None, Some(y)) => {
            let k = choose|k: Seq<char>|
                k != last_node_key() && #[trigger] env_get(m, k) == Some(Binding::Node(y));
            assert(env_get(m, k) == Some(Binding::Node(y)));
        },
        _ => {},
    }
}

/// The largest node is what is the largest.
pub proof fn lemma_largest_node(m: EnvMap, r: Option<u64>)
    requires
        is_largest_node(m, r),
    ensures
        largest_node(m) == r,
{
    lemma_largest_unique(m, r, largest_node(m));
}

impl Env {
    /// No variables.
    pub fn new() -> (r: Self)
        ensures
            r@ == Map::<Seq<char>, Binding>::empty(),
    {
        Env { entries: Vec::new() }
    }

    /// The position of the entry that counts for a name.
    fn position(&self, key: &str) -> (r: Option<usize>)
        ensures
            match r {
                Some(i) => {
                    &&& i < self.entries@.len()
                    &&& self.entries@[i as int].0@ == key@
                    &&& env_get(self@, key@) == Some(self.entries@[i as int].1)
                },
                None => env_get(self@, key@) is None,
            },
    {
        let mut i: usize = self.entries.len();
        while i > 0
            invariant
                i <= self.entries@.len(),
                forall|j: int| i <= j < self.entries@.len() ==> (#[trigger] self.entries@[j]).0@ != key@,
            decreases i,
        {
            i = i - 1;
            if str_equal(self.entries[i].0.as_str(), key) {
                proof {
                    lemma_hidden(self.entries@, i + 1, key@);
                    assert(self.entries@.take(i + 1).last() == self.entries@[i as int]);
                }
                return Some(i);
            }
        }
        proof {
            lemma_hidden(self.entries@, 0, key@);
            assert(self.entries@.take(0) =~= Seq::empty());
        }
        None
    }

    /// What a name stands for.
    pub fn get(&self, key: &str) -> (r: Option<Binding>)
        ensures
            r == env_get(self@, key@),
    {
        match self.position(key) {
            Some(i) => Some(self.entries[i].1),
            None => None,
        }
    }

    /// Sets what a name stands for.
    pub fn insert(&mut self, key: &str, b: Binding)
        ensures
            final(self)@ == old(self)@.insert(key@, b),
    {
        let ghost before = self.entries@;
        self.entries.push((copy_str(key), b));
        assert(self.entries@.drop_last() =~= before);
    }

    /// A copy.
    pub fn copy(&self) -> (r: Self)
        ensures
            r@ == self@,
    {
        let mut out: Env = Env { entries: Vec::new() };
        let mut i: usize = 0;
        assert(self.entries@.take(0) =~= Seq::empty());
        while i < self.entries.len()
            invariant
                i <= self.entries@.len(),
                out@ == entries_map(self.entries@.take(i as int)),
            decreases self.entries@.len() - i,
        {
            out.insert(self.entries[i].0.as_str(), self.entries[i].1);
            proof {
                assert(self.entries@.take(i + 1).drop_last() =~= self.entries@.take(i as int));
            }
            i = i + 1;
        }
        assert(self.entries@.take(i as int) =~= self.entries@);
        out
    }

    /// A copy without a name.
    pub fn without(&self, key: &str) -> (r: Self)
        ensures
            r@ == self@.remove(key@),
    {
        let mut out: Env = Env { entries: Vec::new() };
        let mut i: usize = 0;
        assert(self.entries@.take(0) =~= Seq::empty());
        assert(out@ =~= entries_map(self.entries@.take(0)).remove(key@));
        while i < self.entries.len()
            invariant
                i <= self.entries@.len(),
                out@ == entries_map(self.entries@.take(i as int)).remove(key@),
            decreases self.entries@.len() - i,
        {
            let ghost m = entries_map(self.entries@.take(i as int));
            let ghost k = self.entries@[i as int].0@;
            let ghost b = self.entries@[i as int].1;
            if !str_equal(self.entries[i].0.as_str(), key) {
                out.insert(self.entries[i].0.as_str(), self.entries[i].1);
            }
            proof {
                assert(self.entries@.take(i + 1).drop_last() =~= self.entries@.take(i as int));
                if k == key@ {
                    assert(m.insert(k, b).remove(key@) =~= m.remove(key@));
                } else {
                    assert(m.insert(k, b).remove(key@) =~= m.remove(key@).insert(k, b));
                }
            }
            i = i + 1;
        }
        assert(self.entries@.take(i as int) =~= self.entries@);
        out
    }

    /// The largest node that a name stands for.
    pub fn largest(&self) -> (r: Option<NodeId>)
        ensures
            r == largest_node(self@),
    {
        let mut best: Option<NodeId> = None;
        let mut i: usize = 0;
        while i < self.entries.len()
            invariant
                i <= self.entries@.len(),
                match best {
                    Some(n) => exists|k: Seq<char>|
                        k != last_node_key() && #[trigger] env_get(self@, k) == Some(
                            Binding::Node(n),
                        ),
                    None => true,
                },
                forall|j: int, x: u64|
                    0 <= j < i && (#[trigger] self.entries@[j]).0@ != last_node_key() && env_get(
                        self@,
                        self.entries@[j].0@,
                    ) == Some(Binding::Node(x)) && #[trigger] any_node(x) ==> (best matches Some(n)
                        && x <= n),
            decreases self.entries@.len() - i,
        {
            let name = self.entries[i].0.as_str();
            if !str_equal(name, "__last_node__") {
                match self.get(name) {
                    Some(Binding::Node(id)) => {
                        match best {
                            Some(prev) => {
                                if id > prev {
                                    best = Some(id);
                                }
                            },
                            None => {
                                best = Some(id);
                            },
                        }
                    },
                    _ => {},
                }
            }
            i = i + 1;
        }
        proof {
            assert forall|k: Seq<char>, x: u64|
                k != last_node_key() && #[trigger] env_get(self@, k) == Some(Binding::Node(x))
                    && #[trigger] any_node(x) implies (best matches Some(n) && x <= n) by {
                lemma_has_entry(self.entries@, k);
                let j = choose|j: int|
                    0 <= j < self.entries@.len() && (#[trigger] self.entries@[j]).0@ == k;
                assert(self.entries@[j].0@ == k);
            }
            assert(is_largest_node(self@, best)) by {
                if best is None {
                    assert forall|k: Seq<char>| k != last_node_key() implies !(#[trigger] env_get(
                        self@,
                        k,
                    ) matches Some(Binding::Node(_))) by {
                        match env_get(self@, k) {
                            Some(Binding::Node(x)) => {
                                assert(any_node(x));
                            },
                            _ => {},
                        }
                    }
                }
            }
            lemma_largest_unique(self@, best, largest_node(self@));
        }
        best
    }
}

proof fn lemma_has_entry(s: Seq<(String, Binding)>, k: Seq<char>)
    requires
        entries_map(s).contains_key(k),
    ensures
        exists|j: int| 0 <= j < s.len() && (#[trigger] s[j]).0@ == k,
    decreases s.len(),
{
    if s.len() > 0 {
        if s.last().0@ == k {
            assert(s[s.len() - 1].0@ == k);
        } else {
            let d = s.drop_last();
            lemma_has_entry(d, k);
            let j = choose|j: int| 0 <= j < d.len() && (#[trigger] d[j]).0@ == k;
            assert(s[j].0@ == k);
        }
    }
}

/// Environments, as values.
pub open spec fn envs_view(v: Seq<Env>) -> Seq<EnvMap> {
    Seq::new(v.len(), |i: int| v[i]@)
}

} // verus!
