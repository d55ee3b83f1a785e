//! A trie mapping sequences of keys to values. Its nodes live in one vector; each node maps the
//! next key of a sequence to the position of the node for the longer sequence.
use std::collections::HashMap;
use vstd::prelude::*;

verus! {

broadcast use {vstd::seq::group_seq_axioms, vstd::std_specs::hash::group_hash_axioms};

/// A node of a trie: the value stored for the key sequence leading to it, if any, and where
/// each next key leads.
#[derive(Debug)]
pub struct TrieChild<V> {
    value: Option<V>,
    nodes: HashMap<u64, usize>,
}

/// A trie over sequences of `u64` keys.
pub struct Trie<V> {
    /// Where the first key of a sequence leads.
    nodes: HashMap<u64, usize>,
    /// The nodes.
    arena: Vec<TrieChild<V>>,
    /// The key sequence leading to each node.
    paths: Ghost<Seq<Seq<u64>>>,
    /// The node each node hangs from, for nodes deeper than the first level.
    parents: Ghost<Seq<int>>,
}

/// Whether `a` is the beginning of `b`.
pub open spec fn is_prefix(a: Seq<u64>, b: Seq<u64>) -> bool {
    a.len() <= b.len() && b.take(a.len() as int) == a
}

impl<V> Trie<V> {
    /// The number of nodes.
    pub closed spec fn size(&self) -> nat {
        self.arena@.len()
    }

    /// The key sequence leading to node `i`.
    closed spec fn path(&self, i: int) -> Seq<u64> {
        self.paths@[i]
    }

    /// The trie is linked, and every node leads to a stored value.
    pub closed spec fn wf(&self) -> bool {
        self.linked() && self.grounded()
    }

    /// Some node at or below node `i` holds a value.
    closed spec fn reaches_value(&self, i: int) -> bool {
        exists|j: int|
            0 <= j < self.arena@.len() && self.arena@[j].value is Some && is_prefix(
                self.paths@[i],
                #[trigger] self.paths@[j],
            )
    }

    /// Every node leads to a stored value.
    closed spec fn grounded(&self) -> bool {
        forall|i: int| 0 <= i < self.arena@.len() ==> #[trigger] self.reaches_value(i)
    }

    /// Every node leads to a stored value, but for nodes on the way to `key`.
    closed spec fn grounded_but(&self, key: Seq<u64>) -> bool {
        forall|i: int|
            0 <= i < self.arena@.len() ==> is_prefix(self.paths@[i], key)
                || #[trigger] self.reaches_value(i)
    }

    /// Adding nodes on the way to `key`, and keeping the paths and values of the others, keeps
    /// every other node leading to a value.
    proof fn lemma_grounded_kept(before: &Self, after: &Self, key: Seq<u64>)
        requires
            before.grounded_but(key),
            before.arena@.len() <= after.arena@.len(),
            before.paths@.len() == before.arena@.len(),
            after.paths@.len() == after.arena@.len(),
            forall|i: int| 0 <= i < before.arena@.len() ==> after.paths@[i] == before.paths@[i],
            forall|i: int|
                0 <= i < before.arena@.len() ==> (#[trigger] after.arena@[i]).value
                    == before.arena@[i].value,
            forall|i: int|
                before.arena@.len() <= i < after.arena@.len() ==> is_prefix(
                    #[trigger] after.paths@[i],
                    key,
                ),
        ensures
            after.grounded_but(key),
    {
        assert forall|i: int| 0 <= i < after.arena@.len() && !is_prefix(after.paths@[i], key)
            implies #[trigger] after.reaches_value(i) by {
            assert(i < before.arena@.len());
            assert(before.reaches_value(i));
            let j = choose|j: int|
                0 <= j < before.arena@.len() && before.arena@[j].value is Some && is_prefix(
                    before.paths@[i],
                    #[trigger] before.paths@[j],
                );
            assert(after.arena@[j].value == before.arena@[j].value);
            assert(after.paths@[j] == before.paths@[j]);
        }
    }

    /// Storing a value at the node of `key` makes every node lead to a value again.
    proof fn lemma_grounded_final(before: &Self, after: &Self, key: Seq<u64>, cur: int)
        requires
            before.grounded_but(key),
            0 <= cur < before.arena@.len(),
            before.paths@[cur] == key,
            before.arena@.len() == after.arena@.len(),
            after.paths == before.paths,
            after.arena@[cur].value is Some,
            forall|i: int|
                0 <= i < before.arena@.len() && i != cur ==> (#[trigger] after.arena@[i]).value
                    == before.arena@[i].value,
        ensures
            after.grounded(),
    {
        assert forall|i: int| 0 <= i < after.arena@.len() implies #[trigger] after.reaches_value(i) by {
            if is_prefix(after.paths@[i], key) {
                assert(is_prefix(after.paths@[i], after.paths@[cur]));
            } else {
                assert(before.reaches_value(i));
                let j = choose|j: int|
                    0 <= j < before.arena@.len() && before.arena@[j].value is Some && is_prefix(
                        before.paths@[i],
                        #[trigger] before.paths@[j],
                    );
                if j != cur {
                    assert(after.arena@[j].value == before.arena@[j].value);
                }
                assert(is_prefix(after.paths@[i], after.paths@[j]));
            }
        }
    }

    /// The first-level edges and each node's edges agree with the paths, and every node deeper
    /// than the first level hangs from the node of its path's prefix.
    closed spec fn linked(&self) -> bool {
        let n = self.arena@.len();
        let ps = self.paths@;
        &&& ps.len() == n
        &&& self.parents@.len() == n
        &&& forall|i: int| 0 <= i < n ==> (#[trigger] ps[i]).len() >= 1
        &&& forall|k: u64| #[trigger]
            self.nodes@.contains_key(k) ==> self.nodes@[k] < n && ps[self.nodes@[k] as int]
                == seq![k]
        &&& forall|i: int, k: u64|
            0 <= i < n && #[trigger] self.arena@[i].nodes@.contains_key(k) ==> self.arena@[i].nodes@[k]
                < n && ps[self.arena@[i].nodes@[k] as int] == ps[i].push(k)
        &&& forall|i: int|
            0 <= i < n && (#[trigger] ps[i]).len() == 1 ==> self.nodes@.contains_key(ps[i][0])
                && self.nodes@[ps[i][0]] == i
        &&& forall|i: int|
            0 <= i < n && (#[trigger] ps[i]).len() > 1 ==> {
                let j = self.parents@[i];
                &&& 0 <= j < n
                &&& ps[j] == ps[i].drop_last()
                &&& self.arena@[j].nodes@.contains_key(ps[i].last())
                &&& self.arena@[j].nodes@[ps[i].last()] == i
            }
    }

    /// What the trie holds: the value stored under each key sequence.
    pub closed spec fn contents(&self) -> Map<Seq<u64>, V> {
        Map::new(
            |p: Seq<u64>|
                exists|i: int|
                    0 <= i < self.arena@.len() && self.paths@[i] == p
                        && self.arena@[i].value is Some,
            |p: Seq<u64>|
                self.arena@[choose|i: int|
                    0 <= i < self.arena@.len() && self.paths@[i] == p
                        && self.arena@[i].value is Some].value->0,
        )
    }

    /// Two nodes with the same path are the same node.
    proof fn lemma_paths_distinct(&self, i: int, j: int)
        requires
            self.linked(),
            0 <= i < self.arena@.len(),
            0 <= j < self.arena@.len(),
            self.paths@[i] == self.paths@[j],
        ensures
            i == j,
        decreases self.paths@[i].len(),
    {
        let ps = self.paths@;
        assert(ps[i].len() >= 1);
        if ps[i].len() == 1 {
            assert(ps[i][0] == ps[j][0]);
        } else {
            let pi = self.parents@[i];
            let pj = self.parents@[j];
            assert(ps[pi] == ps[i].drop_last());
            assert(ps[pj] == ps[j].drop_last());
            self.lemma_paths_distinct(pi, pj);
        }
    }

    /// No two nodes share a path.
    proof fn lemma_all_distinct(&self)
        requires
            self.linked(),
        ensures
            forall|a: int, b: int|
                0 <= a < self.arena@.len() && 0 <= b < self.arena@.len() && #[trigger] self.paths@[a]
                    == #[trigger] self.paths@[b] ==> a == b,
    {
        assert forall|a: int, b: int|
            0 <= a < self.arena@.len() && 0 <= b < self.arena@.len() && #[trigger] self.paths@[a]
                == #[trigger] self.paths@[b] implies a == b by {
            self.lemma_paths_distinct(a, b);
        }
    }

    /// A node with path `p` has, for each length `l` from 1 up, an ancestor with path `p`'s
    /// first `l` keys.
    proof fn lemma_ancestor(&self, m: int, l: int) -> (a: int)
        requires
            self.linked(),
            0 <= m < self.arena@.len(),
            1 <= l <= self.paths@[m].len(),
        ensures
            0 <= a < self.arena@.len(),
            self.paths@[a] == self.paths@[m].take(l),
        decreases self.paths@[m].len() - l,
    {
        let ps = self.paths@;
        if l == ps[m].len() {
            assert(ps[m].take(l) =~= ps[m]);
            m
        } else {
            let pm = self.parents@[m];
            assert(ps[m].len() > 1);
            assert(ps[pm] == ps[m].drop_last());
            let a = self.lemma_ancestor(pm, l);
            assert(ps[pm].take(l) =~= ps[m].take(l));
            a
        }
    }

    /// No node has a path `p` when the node of a shorter prefix of `p` has no edge for the next
    /// key.
    proof fn lemma_no_deeper(&self, cur: int, p: Seq<u64>)
        requires
            self.linked(),
            0 <= cur < self.arena@.len(),
            self.paths@[cur].len() < p.len(),
            self.paths@[cur] == p.take(self.paths@[cur].len() as int),
            !self.arena@[cur].nodes@.contains_key(p[self.paths@[cur].len() as int]),
        ensures
            forall|m: int| 0 <= m < self.arena@.len() ==> self.paths@[m] != p,
    {
        let t = self.paths@[cur].len() as int;
        assert forall|m: int| 0 <= m < self.arena@.len() implies self.paths@[m] != p by {
            if self.paths@[m] == p {
                let a = self.lemma_ancestor(m, t + 1);
                let ps = self.paths@;
                assert(ps[a].len() > 1);
                let pa = self.parents@[a];
                assert(ps[pa] == ps[a].drop_last());
                assert(ps[a].drop_last() =~= p.take(t));
                self.lemma_paths_distinct(pa, cur);
                assert(ps[a].last() == p[t]);
            }
        }
    }

    /// No node has path `p` when there is no first-level edge for `p`'s first key.
    proof fn lemma_no_first(&self, p: Seq<u64>)
        requires
            self.linked(),
            p.len() >= 1,
            !self.nodes@.contains_key(p[0]),
        ensures
            forall|m: int| 0 <= m < self.arena@.len() ==> self.paths@[m] != p,
    {
        assert forall|m: int| 0 <= m < self.arena@.len() implies self.paths@[m] != p by {
            if self.paths@[m] == p {
                let a = self.lemma_ancestor(m, 1);
                assert(self.paths@[a].len() == 1);
                assert(self.paths@[a][0] == p[0]);
            }
        }
    }

    /// What the trie holds under the path of node `i`, when no two nodes share a path.
    proof fn lemma_contents_at(&self, i: int)
        requires
            0 <= i < self.arena@.len(),
            forall|a: int, b: int|
                0 <= a < self.arena@.len() && 0 <= b < self.arena@.len() && #[trigger] self.paths@[a]
                    == #[trigger] self.paths@[b] ==> a == b,
        ensures
            self.contents().contains_key(self.paths@[i]) <==> self.arena@[i].value is Some,
            self.arena@[i].value matches Some(v) ==> self.contents()[self.paths@[i]] == v,
    {
        let p = self.paths@[i];
        if self.contents().contains_key(p) {
            let j = choose|j: int|
                0 <= j < self.arena@.len() && self.paths@[j] == p && self.arena@[j].value is Some;
            assert(self.paths@[j] == self.paths@[i]);
        }
        if self.arena@[i].value is Some {
            assert(self.contents().contains_key(p));
            let j = choose|j: int|
                0 <= j < self.arena@.len() && self.paths@[j] == p && self.arena@[j].value is Some;
            assert(self.paths@[j] == self.paths@[i]);
        }
    }

    /// Creates an empty trie.
    pub fn new() -> (r: Self)
        ensures
            r.wf(),
            r.size() == 0,
            r.contents() == Map::<Seq<u64>, V>::empty(),
    {
        let r = Trie {
            nodes: HashMap::new(),
            arena: Vec::new(),
            paths: Ghost(Seq::empty()),
            parents: Ghost(Seq::empty()),
        };
        proof {
            assert(r.contents() =~= Map::<Seq<u64>, V>::empty());
        }
        r
    }

    /// The node the sequence `key` leads to, if there is one.
    fn find(&self, key: &[u64]) -> (r: Option<usize>)
        requires
            self.linked(),
            key@.len() >= 1,
        ensures
            r matches Some(i) ==> i < self.arena@.len() && self.paths@[i as int] == key@,
            r is None ==> forall|m: int| 0 <= m < self.arena@.len() ==> self.paths@[m] != key@,
    {
        let mut cur = match self.nodes.get(&key[0]) {
            Some(i) => *i,
            None => {
                proof {
                    self.lemma_no_first(key@);
                }
                return None;
            },
        };
        proof {
            assert(key@.take(1) =~= seq![key@[0]]);
        }
        let mut t: usize = 1;
        while t < key.len()
            invariant
                self.linked(),
                1 <= t <= key@.len(),
                cur < self.arena@.len(),
                self.paths@[cur as int] == key@.take(t as int),
            decreases key@.len() - t,
        {
            let k = key[t];
            match self.arena[cur].nodes.get(&k) {
                Some(j) => {
                    proof {
                        assert(key@.take(t + 1) =~= key@.take(t as int).push(k));
                    }
                    cur = *j;
                },
                None => {
                    proof {
                        self.lemma_no_deeper(cur as int, key@);
                    }
                    return None;
                },
            }
            t = t + 1;
        }
        proof {
            assert(key@.take(t as int) =~= key@);
        }
        Some(cur)
    }

    /// The value stored under the sequence `key`.
    pub fn get(&self, key: &[u64]) -> (r: Option<&V>)
        requires
            self.wf(),
        ensures
            key@.len() >= 1 && self.contents().contains_key(key@) ==> r == Some(
                &self.contents()[key@],
            ),
            key@.len() == 0 || !self.contents().contains_key(key@) ==> r is None,
    {
        if key.len() == 0 {
            return None;
        }
        match self.find(key) {
            Some(i) => {
                proof {
                    self.lemma_all_distinct();
                    self.lemma_contents_at(i as int);
                }
                self.arena[i].value.as_ref()
            },
            None => {
                proof {
                    assert(!self.contents().contains_key(key@));
                }
                None
            },
        }
    }

    /// Whether some sequence stored in the trie goes on past `key`.
    pub open spec fn has_longer(&self, key: Seq<u64>) -> bool {
        exists|b: Seq<u64>|
            #[trigger] self.contents().contains_key(b) && key.len() < b.len() && b.take(
                key.len() as int,
            ) == key
    }

    /// Whether some sequence stored in the trie goes on past `key`.
    pub fn exists_child(&self, key: &[u64]) -> (r: bool)
        requires
            self.wf(),
        ensures
            r == self.has_longer(key@),
    {
        proof {
            self.lemma_all_distinct();
        }
        if key.len() == 0 {
            let r = self.arena.len() > 0;
            proof {
                if r {
                    assert(self.reaches_value(0));
                    let j = choose|j: int|
                        0 <= j < self.arena@.len() && self.arena@[j].value is Some && is_prefix(
                            self.paths@[0],
                            #[trigger] self.paths@[j],
                        );
                    self.lemma_contents_at(j);
                    assert(self.paths@[j].len() >= 1);
                    assert(self.paths@[j].take(0) =~= key@);
                    assert(self.contents().contains_key(self.paths@[j]));
                } else {
                    assert forall|b: Seq<u64>| !#[trigger] self.contents().contains_key(b) by {
                        if self.contents().contains_key(b) {
                            let m = choose|m: int|
                                0 <= m < self.arena@.len() && self.paths@[m] == b
                                    && self.arena@[m].value is Some;
                        }
                    }
                }
            }
            return r;
        }
        match self.find(key) {
            None => {
                proof {
                    assert forall|b: Seq<u64>|
                        #[trigger] self.contents().contains_key(b) && key@.len() < b.len() implies b.take(
                            key@.len() as int,
                        ) != key@ by {
                        let m = choose|m: int|
                            0 <= m < self.arena@.len() && self.paths@[m] == b
                                && self.arena@[m].value is Some;
                        let a = self.lemma_ancestor(m, key@.len() as int);
                    }
                }
                false
            },
            Some(i) => {
                let r = !self.arena[i].nodes.is_empty();
                proof {
                    let ps = self.paths@;
                    let edges = self.arena@[i as int].nodes@;
                    if r {
                        if !(exists|k: u64| edges.dom().contains(k)) {
                            assert(edges.dom() =~= Set::<u64>::empty());
                        }
                        let k = choose|k: u64| edges.dom().contains(k);
                        assert(edges.contains_key(k));
                        let c = edges[k] as int;
                        assert(ps[c] == ps[i as int].push(k));
                        assert(self.reaches_value(c));
                        let j = choose|j: int|
                            0 <= j < self.arena@.len() && self.arena@[j].value is Some && is_prefix(
                                ps[c],
                                #[trigger] ps[j],
                            );
                        self.lemma_contents_at(j);
                        let b = ps[j];
                        assert(b.take(key@.len() as int) =~= b.take(ps[c].len() as int).take(
                            key@.len() as int,
                        ));
                        assert(ps[c].take(key@.len() as int) =~= key@);
                        assert(self.contents().contains_key(b));
                    } else {
                        assert forall|b: Seq<u64>|
                            #[trigger] self.contents().contains_key(b) && key@.len() < b.len() implies b.take(
                                key@.len() as int,
                            ) != key@ by {
                            if b.take(key@.len() as int) == key@ {
                                let m = choose|m: int|
                                    0 <= m < self.arena@.len() && self.paths@[m] == b
                                        && self.arena@[m].value is Some;
                                let a = self.lemma_ancestor(m, key@.len() + 1int);
                                assert(ps[a].len() > 1);
                                let pa = self.parents@[a];
                                assert(ps[a].drop_last() =~= key@);
                                self.lemma_paths_distinct(pa, i as int);
                                assert(edges.contains_key(ps[a].last()));
                                assert(edges.dom().contains(ps[a].last()));
                            }
                        }
                    }
                }
                r
            },
        }
    }

    /// Two tries whose nodes agree in path and value, but for nodes of the second holding no
    /// value, hold the same.
    proof fn lemma_same_contents(a: &Self, b: &Self)
        requires
            a.arena@.len() <= b.arena@.len(),
            a.paths@.len() == a.arena@.len(),
            b.paths@.len() == b.arena@.len(),
            forall|i: int| 0 <= i < a.arena@.len() ==> b.paths@[i] == a.paths@[i],
            forall|i: int| 0 <= i < a.arena@.len() ==> (#[trigger] b.arena@[i]).value == a.arena@[i].value,
            forall|i: int| a.arena@.len() <= i < b.arena@.len() ==> (#[trigger] b.arena@[i]).value is None,
            forall|x: int, y: int|
                0 <= x < b.arena@.len() && 0 <= y < b.arena@.len() && #[trigger] b.paths@[x]
                    == #[trigger] b.paths@[y] ==> x == y,
        ensures
            b.contents() == a.contents(),
    {
        assert forall|p: Seq<u64>| #[trigger] b.contents().contains_key(p) <==> a.contents().contains_key(p) by {
            if b.contents().contains_key(p) {
                let j = choose|j: int|
                    0 <= j < b.arena@.len() && b.paths@[j] == p && b.arena@[j].value is Some;
                assert(j < a.arena@.len());
                assert(a.paths@[j] == p && a.arena@[j].value is Some);
            }
            if a.contents().contains_key(p) {
                let j = choose|j: int|
                    0 <= j < a.arena@.len() && a.paths@[j] == p && a.arena@[j].value is Some;
                assert(b.paths@[j] == p && b.arena@[j].value is Some);
            }
        }
        assert forall|p: Seq<u64>| #[trigger] b.contents().contains_key(p) implies b.contents()[p]
            == a.contents()[p] by {
            let jb = choose|j: int|
                0 <= j < b.arena@.len() && b.paths@[j] == p && b.arena@[j].value is Some;
            let ja = choose|j: int|
                0 <= j < a.arena@.len() && a.paths@[j] == p && a.arena@[j].value is Some;
            assert(b.paths@[ja] == p);
            assert(b.paths@[jb] == b.paths@[ja]);
        }
        assert(b.contents() =~= a.contents());
    }

    /// Appends a node holding nothing, with the given path and parent; returns its position.
    fn push_node(&mut self, path: Ghost<Seq<u64>>, parent: Ghost<int>) -> (r: usize)
        requires
            old(self).arena@.len() < usize::MAX,
        ensures
            r == old(self).arena@.len(),
            final(self).arena@ == old(self).arena@.push(final(self).arena@[r as int]),
            final(self).arena@[r as int].value is None,
            final(self).arena@[r as int].nodes@ == Map::<u64, usize>::empty(),
            final(self).paths@ == old(self).paths@.push(path@),
            final(self).parents@ == old(self).parents@.push(parent@),
            final(self).nodes == old(self).nodes,
    {
        let r = self.arena.len();
        self.arena.push(TrieChild { value: None, nodes: HashMap::new() });
        self.paths = Ghost(self.paths@.push(path@));
        self.parents = Ghost(self.parents@.push(parent@));
        r
    }

    /// Adds the edge `k` from node `i` to node `j`.
    fn add_edge(&mut self, i: usize, k: u64, j: usize)
        requires
            i < old(self).arena@.len(),
        ensures
            final(self).arena@.len() == old(self).arena@.len(),
            final(self).arena@[i as int].nodes@ == old(self).arena@[i as int].nodes@.insert(k, j),
            final(self).arena@[i as int].value == old(self).arena@[i as int].value,
            forall|m: int| 0 <= m < old(self).arena@.len() && m != i ==> #[trigger] final(self).arena@[m]
                == old(self).arena@[m],
            final(self).paths == old(self).paths,
            final(self).parents == old(self).parents,
            final(self).nodes == old(self).nodes,
    {
        let mut node = TrieChild { value: None, nodes: HashMap::new() };
        self.arena.set_and_swap(i, &mut node);
        node.nodes.insert(k, j);
        self.arena.set_and_swap(i, &mut node);
    }

    /// Stores `value` at node `i`, returning what it held.
    fn set_value(&mut self, i: usize, value: V) -> (r: Option<V>)
        requires
            i < old(self).arena@.len(),
        ensures
            r == old(self).arena@[i as int].value,
            final(self).arena@.len() == old(self).arena@.len(),
            final(self).arena@[i as int].value == Some(value),
            final(self).arena@[i as int].nodes == old(self).arena@[i as int].nodes,
            forall|m: int| 0 <= m < old(self).arena@.len() && m != i ==> #[trigger] final(self).arena@[m]
                == old(self).arena@[m],
            final(self).paths == old(self).paths,
            final(self).parents == old(self).parents,
            final(self).nodes == old(self).nodes,
    {
        let mut node = TrieChild { value: None, nodes: HashMap::new() };
        self.arena.set_and_swap(i, &mut node);
        let prev = node.value;
        node.value = Some(value);
        self.arena.set_and_swap(i, &mut node);
        prev
    }

    /// Stores `value` under the sequence `key`, returning the value stored there before. An
    /// empty sequence stores nothing.
    pub fn insert(&mut self, key: &[u64], value: V) -> (r: Option<V>)
        requires
            old(self).wf(),
            old(self).size() + key@.len() <= usize::MAX,
        ensures
            final(self).wf(),
            final(self).size() <= old(self).size() + key@.len(),
            key@.len() == 0 ==> r is None && final(self).contents() == old(self).contents(),
            key@.len() >= 1 ==> final(self).contents() == old(self).contents().insert(key@, value),
            key@.len() >= 1 && old(self).contents().contains_key(key@) ==> r == Some(
                old(self).contents()[key@],
            ),
            key@.len() >= 1 && !old(self).contents().contains_key(key@) ==> r is None,
    {
        if key.len() == 0 {
            return None;
        }
        let k0 = key[0];
        proof {
            assert(key@.take(1) =~= seq![k0]);
            assert forall|i: int| 0 <= i < self.arena@.len() implies is_prefix(self.paths@[i], key@)
                || #[trigger] self.reaches_value(i) by {}
        }
        let mut cur: usize = match self.nodes.get(&k0) {
            Some(i) => *i,
            None => {
                let ghost before = *self;
                proof {
                    before.lemma_no_first(seq![k0]);
                }
                let ghost first = seq![k0];
                let ghost none: int = -1;
                let i = self.push_node(Ghost(first), Ghost(none));
                self.nodes.insert(k0, i);
                proof {
                    assert(self.linked());
                    self.lemma_all_distinct();
                    Self::lemma_same_contents(&before, self);
                    assert(is_prefix(self.paths@[i as int], key@));
                    Self::lemma_grounded_kept(&before, self, key@);
                }
                i
            },
        };
        proof {
            assert(key@.take(1) =~= seq![k0]);
        }
        let mut t: usize = 1;
        while t < key.len()
            invariant
                self.linked(),
                1 <= t <= key@.len(),
                cur < self.arena@.len(),
                self.paths@[cur as int] == key@.take(t as int),
                self.contents() == old(self).contents(),
                self.grounded_but(key@),
                self.size() <= old(self).size() + t,
                old(self).size() + key@.len() <= usize::MAX,
            decreases key@.len() - t,
        {
            let k = key[t];
            proof {
                assert(key@.take(t + 1) =~= key@.take(t as int).push(k));
            }
            let next = match self.arena[cur].nodes.get(&k) {
                Some(j) => *j,
                None => {
                    let ghost before = *self;
                    proof {
                        assert(key@.take(t + 1).take(t as int) =~= key@.take(t as int));
                        before.lemma_no_deeper(cur as int, key@.take(t + 1));
                    }
                    let ghost longer = key@.take(t + 1);
                    let ghost parent = cur as int;
                    let j = self.push_node(Ghost(longer), Ghost(parent));
                    self.add_edge(cur, k, j);
                    proof {
                        let n = self.arena@.len();
                        let ps = self.paths@;
                        assert(ps[j as int] == key@.take(t + 1));
                        assert(ps[j as int].drop_last() =~= key@.take(t as int));
                        assert(ps[j as int].last() == k);
                        assert forall|i: int, kk: u64|
                            0 <= i < n && #[trigger] self.arena@[i].nodes@.contains_key(kk) implies self.arena@[i].nodes@[kk]
                                < n && ps[self.arena@[i].nodes@[kk] as int] == ps[i].push(kk) by {
                            if i == cur && kk == k {
                            } else if i < before.arena@.len() {
                                assert(before.arena@[i].nodes@.contains_key(kk));
                            }
                        }
                        assert forall|i: int|
                            0 <= i < n && (#[trigger] ps[i]).len() > 1 implies {
                                let jj = self.parents@[i];
                                &&& 0 <= jj < n
                                &&& ps[jj] == ps[i].drop_last()
                                &&& self.arena@[jj].nodes@.contains_key(ps[i].last())
                                &&& self.arena@[jj].nodes@[ps[i].last()] == i
                            } by {
                            if i < before.arena@.len() {
                                assert(before.paths@[i] == ps[i]);
                                let jj = before.parents@[i];
                                if jj == cur {
                                    assert(before.arena@[jj].nodes@.contains_key(ps[i].last()));
                                    assert(ps[i].last() != k);
                                }
                            }
                        }
                        assert forall|i: int|
                            0 <= i < n && (#[trigger] ps[i]).len() == 1 implies self.nodes@.contains_key(ps[i][0])
                                && self.nodes@[ps[i][0]] == i by {
                            if i < before.arena@.len() {
                                assert(before.paths@[i] == ps[i]);
                            }
                        }
                        assert(self.linked());
                        self.lemma_all_distinct();
                        Self::lemma_same_contents(&before, self);
                        assert(is_prefix(ps[j as int], key@));
                        assert forall|m: int| 0 <= m < before.arena@.len() implies (
                            #[trigger] self.arena@[m]).value == before.arena@[m].value by {
                            if m != cur {
                                assert(self.arena@[m] == before.arena@[m]);
                            }
                        }
                        Self::lemma_grounded_kept(&before, self, key@);
                    }
                    j
                },
            };
            cur = next;
            t = t + 1;
        }
        proof {
            assert(key@.take(t as int) =~= key@);
            self.lemma_all_distinct();
            self.lemma_contents_at(cur as int);
        }
        let ghost before = *self;
        let prev = self.set_value(cur, value);
        proof {
            assert(self.linked());
            Self::lemma_grounded_final(&before, self, key@, cur as int);
            self.lemma_all_distinct();
            self.lemma_contents_at(cur as int);
            assert forall|p: Seq<u64>| p != key@ implies (#[trigger] self.contents().contains_key(p)
                <==> before.contents().contains_key(p)) && (self.contents().contains_key(p)
                ==> self.contents()[p] == before.contents()[p]) by {
                if self.contents().contains_key(p) {
                    let j = choose|j: int|
                        0 <= j < self.arena@.len() && self.paths@[j] == p && self.arena@[j].value is Some;
                    assert(j != cur);
                    before.lemma_all_distinct();
                    before.lemma_contents_at(j);
                    self.lemma_contents_at(j);
                }
                if before.contents().contains_key(p) {
                    let j = choose|j: int|
                        0 <= j < before.arena@.len() && before.paths@[j] == p && before.arena@[j].value is Some;
                    assert(j != cur);
                    assert(self.arena@[j] == before.arena@[j]);
                    assert(self.contents().contains_key(p));
                }
            }
            assert(self.contents() =~= before.contents().insert(key@, value));
        }
        prev
    }
}


impl<V> Default for Trie<V> {
    fn default() -> (r: Self)
        ensures
            r.wf(),
            r.contents() == Map::<Seq<u64>, V>::empty(),
    {
        Trie::new()
    }
}

/// What was stored under a sequence is what a lookup finds there, and storing under one
/// sequence leaves every other sequence as it was; storing under the same sequence again hands
/// back the value stored first.
pub proof fn law_insert_get<V>(t0: Trie<V>, t1: Trie<V>, t2: Trie<V>, key: Seq<u64>, a: V, b: V, other: Seq<u64>)
    requires
        key.len() >= 1,
        t1.contents() == t0.contents().insert(key, a),
        t2.contents() == t1.contents().insert(key, b),
        other != key,
    ensures
        t1.contents().contains_key(key) && t1.contents()[key] == a,
        t2.contents()[key] == b,
        t1.contents().contains_key(other) == t0.contents().contains_key(other),
        t1.contents().contains_key(other) ==> t1.contents()[other] == t0.contents()[other],
{
}


/// The contents of `m` once `vals[i]` was stored under `keys[i]` for each `i` in turn.
pub open spec fn after_inserts<V>(m: Map<Seq<u64>, V>, keys: Seq<Seq<u64>>, vals: Seq<V>) -> Map<
    Seq<u64>,
    V,
>
    decreases keys.len(),
{
    if keys.len() == 0 {
        m
    } else {
        after_inserts(m, keys.drop_last(), vals.drop_last()).insert(keys.last(), vals[keys.len() - 1])
    }
}

/// After a history of stores, a sequence is found exactly when it was there at first or was
/// stored under since, and then with the value stored last under it.
pub proof fn law_get_after_inserts<V>(
    ts: Seq<Trie<V>>,
    keys: Seq<Seq<u64>>,
    vals: Seq<V>,
    key: Seq<u64>,
)
    requires
        ts.len() == keys.len() + 1,
        vals.len() == keys.len(),
        forall|i: int|
            0 <= i < keys.len() ==> (#[trigger] ts[i + 1]).contents() == ts[i].contents().insert(
                keys[i],
                vals[i],
            ),
    ensures
        ts.last().contents() == after_inserts(ts[0].contents(), keys, vals),
        ts.last().contents().contains_key(key) <==> (ts[0].contents().contains_key(key)
            || keys.contains(key)),
        forall|i: int|
            0 <= i < keys.len() && keys[i] == key && (forall|j: int| i < j < keys.len() ==> keys[j]
                != key) ==> ts.last().contents()[key] == vals[i],
        !keys.contains(key) && ts[0].contents().contains_key(key) ==> ts.last().contents()[key]
            == ts[0].contents()[key],
    decreases keys.len(),
{
    if keys.len() > 0 {
        let n = keys.len() - 1;
        let ts1 = ts.drop_last();
        assert forall|i: int| 0 <= i < keys.drop_last().len() implies (#[trigger] ts1[i + 1]).contents()
            == ts1[i].contents().insert(keys.drop_last()[i], vals.drop_last()[i]) by {
            assert(ts1[i + 1] == ts[i + 1]);
        }
        law_get_after_inserts(ts1, keys.drop_last(), vals.drop_last(), key);
        assert(ts[n + 1].contents() == ts[n].contents().insert(keys[n], vals[n]));
        assert(ts1.last() == ts[n]);
        assert(keys.contains(key) <==> (keys.drop_last().contains(key) || keys[n] == key)) by {
            if keys.contains(key) {
                let i = choose|i: int| 0 <= i < keys.len() && keys[i] == key;
                if i < n {
                    assert(keys.drop_last()[i] == key);
                }
            }
            if keys.drop_last().contains(key) {
                let i = choose|i: int| 0 <= i < keys.drop_last().len() && keys.drop_last()[i] == key;
                assert(keys[i] == key);
            }
        }
        assert forall|i: int|
            0 <= i < keys.len() && keys[i] == key && (forall|j: int| i < j < keys.len() ==> keys[j]
                != key) implies ts.last().contents()[key] == vals[i] by {
            if i < n {
                assert(keys[n] != key);
                assert(keys.drop_last()[i] == key);
                assert(vals.drop_last()[i] == vals[i]);
                assert forall|j: int| i < j < keys.drop_last().len() implies keys.drop_last()[j] != key by {
                    assert(keys[j] != key);
                }
            }
        }
    } else {
        assert(ts.last() == ts[0]);
    }
}

/// Every proper beginning of a stored sequence has a longer stored sequence after it.
pub proof fn law_prefix_has_longer<V>(t: Trie<V>, key: Seq<u64>, k: int)
    requires
        t.contents().contains_key(key),
        0 <= k < key.len(),
    ensures
        t.has_longer(key.take(k)),
{
    assert(key.take(k).len() == k);
    assert(key.take(k) == key.take(k));
    assert(t.contents().contains_key(key) && key.take(k).len() < key.len() && key.take(
        key.take(k).len() as int,
    ) == key.take(k));
}

} // verus!
