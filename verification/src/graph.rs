use vstd::prelude::*;

use crate::record::TransactionRecord;

verus! {

/// Whether some element of `v` has `x` as its character sequence.
pub open spec fn contains_str(v: Seq<String>, x: Seq<char>) -> bool {
    exists|i: int| 0 <= i < v.len() && v[i]@ == x
}

/// Linear scan for an address in a list of addresses.
pub(crate) fn has_string(v: &Vec<String>, x: &String) -> (r: bool)
    ensures
        r == contains_str(v@, x@),
{
    let mut i: usize = 0;
    while i < v.len()
        invariant
            i <= v@.len(),
            forall|j: int| 0 <= j < i ==> v@[j]@ != x@,
        decreases v@.len() - i,
    {
        if v[i] == *x {
            assert(contains_str(v@, x@));
            return true;
        }
        i += 1;
    }
    false
}

/// Undirected adjacency structure over addresses, derived from transaction
/// co-occurrence. A node is present exactly when some edge touches it, and
/// edges carry no multiplicity: many co-occurrences of the same pair still
/// yield one edge.
pub struct Graph {
    /// The addresses that appear as nodes, each exactly once.
    keys: Vec<String>,
    /// `rows[i]` lists the neighbors of `keys[i]`.
    rows: Vec<Vec<String>>,
}

impl Graph {
    /// One stored direction of an edge: the row of `a` lists `b`.
    /// Under `wf` this relation is symmetric, so it serves as the edge
    /// relation of the (undirected) graph.
    pub closed spec fn edge(self, a: Seq<char>, b: Seq<char>) -> bool {
        exists|i: int, k: int|
            0 <= i < self.keys@.len() && i < self.rows@.len() && 0 <= k < self.rows@[i]@.len()
                && self.keys@[i]@ == a && self.rows@[i]@[k]@ == b
    }

    /// Whether `a` is a node of the graph.
    pub closed spec fn has_node(self, a: Seq<char>) -> bool {
        exists|i: int| 0 <= i < self.keys@.len() && self.keys@[i]@ == a
    }

    /// The number of nodes.
    pub closed spec fn node_count(self) -> nat {
        self.keys@.len()
    }

    /// Structural soundness apart from symmetry: one row per key, and no
    /// address listed as a node twice.
    spec fn basic_wf(self) -> bool {
        &&& self.rows@.len() == self.keys@.len()
        &&& forall|i: int, j: int|
            0 <= i < self.keys@.len() && 0 <= j < self.keys@.len() && i != j ==> self.keys@[i]@
                != self.keys@[j]@
    }

    /// Well-formedness: structural soundness and the graph's one semantic
    /// invariant, symmetry of the edge relation.
    pub closed spec fn wf(self) -> bool {
        &&& self.basic_wf()
        &&& forall|a: Seq<char>, b: Seq<char>| self.edge(a, b) ==> self.edge(b, a)
    }

    /// Every edge runs between nodes: in a well-formed graph an edge's
    /// endpoints are both present as nodes.
    pub proof fn lemma_edge_endpoints(self, a: Seq<char>, b: Seq<char>)
        requires
            self.wf(),
            self.edge(a, b),
        ensures
            self.has_node(a),
            self.has_node(b),
    {
        assert(self.edge(b, a));
    }

    /// Symmetry of a well-formed graph: `b` neighbors `a` exactly when `a`
    /// neighbors `b`.
    pub proof fn lemma_symmetry(self, a: Seq<char>, b: Seq<char>)
        requires
            self.wf(),
        ensures
            self.edge(a, b) <==> self.edge(b, a),
    {
    }

    /// The empty graph.
    pub fn new() -> (g: Graph)
        ensures
            g.wf(),
            forall|x: Seq<char>, y: Seq<char>| !g.edge(x, y),
            forall|x: Seq<char>| !g.has_node(x),
            g.node_count() == 0,
    {
        Graph { keys: Vec::new(), rows: Vec::new() }
    }

    /// How many addresses appear as nodes.
    pub fn count_nodes(&self) -> (n: usize)
        ensures
            n == self.node_count(),
    {
        self.keys.len()
    }

    /// The position of `a` in the node list, if it is a node.
    fn key_index(&self, a: &String) -> (r: Option<usize>)
        ensures
            match r {
                Some(i) => i < self.keys@.len() && self.keys@[i as int]@ == a@,
                None => !self.has_node(a@),
            },
    {
        let mut i: usize = 0;
        while i < self.keys.len()
            invariant
                i <= self.keys@.len(),
                forall|j: int| 0 <= j < i ==> self.keys@[j]@ != a@,
            decreases self.keys@.len() - i,
        {
            if self.keys[i] == *a {
                return Some(i);
            }
            i += 1;
        }
        None
    }

    /// Record the direction `a -> b`, creating `a`'s node entry if absent.
    fn add_arrow(&mut self, a: &String, b: &String)
        requires
            old(self).basic_wf(),
        ensures
            final(self).basic_wf(),
            forall|x: Seq<char>, y: Seq<char>|
                final(self).edge(x, y) <==> old(self).edge(x, y) || (x == a@ && y == b@),
            forall|x: Seq<char>| final(self).has_node(x) <==> old(self).has_node(x) || x == a@,
            final(self).node_count() >= old(self).node_count(),
    {
        match self.key_index(a) {
            Some(i) => {
                if !has_string(&self.rows[i], b) {
                    let ghost pre = *self;
                    let ghost old_row = self.rows@[i as int]@;
                    self.rows[i].push(b.clone());
                    assert forall|x: Seq<char>, y: Seq<char>|
                        self.edge(x, y) <==> pre.edge(x, y) || (x == a@ && y == b@) by {
                        if self.edge(x, y) {
                            let (p, q) = choose|p: int, q: int|
                                0 <= p < self.keys@.len() && p < self.rows@.len() && 0 <= q
                                    < self.rows@[p]@.len() && self.keys@[p]@ == x
                                    && self.rows@[p]@[q]@ == y;
                            if p == i && q == old_row.len() {
                                assert(x == a@ && y == b@);
                            } else {
                                assert(pre.edge(x, y));
                            }
                        }
                        if pre.edge(x, y) {
                            let (p, q) = choose|p: int, q: int|
                                0 <= p < pre.keys@.len() && p < pre.rows@.len() && 0 <= q
                                    < pre.rows@[p]@.len() && pre.keys@[p]@ == x
                                    && pre.rows@[p]@[q]@ == y;
                            assert(self.rows@[p]@[q]@ == y);
                            assert(self.edge(x, y));
                        }
                        if x == a@ && y == b@ {
                            assert(self.rows@[i as int]@[old_row.len() as int]@ == b@);
                            assert(self.edge(x, y));
                        }
                    }
                } else {
                    assert(self.edge(a@, b@)) by {
                        let k = choose|k: int|
                            0 <= k < self.rows@[i as int]@.len() && self.rows@[i as int]@[k]@
                                == b@;
                        assert(0 <= i < self.keys@.len() && 0 <= k < self.rows@[i as int]@.len()
                            && self.keys@[i as int]@ == a@);
                    }
                }
            },
            None => {
                let ghost pre = *self;
                let mut row: Vec<String> = Vec::new();
                row.push(b.clone());
                self.keys.push(a.clone());
                self.rows.push(row);
                assert forall|x: Seq<char>, y: Seq<char>|
                    self.edge(x, y) <==> pre.edge(x, y) || (x == a@ && y == b@) by {
                    let n = pre.keys@.len() as int;
                    if self.edge(x, y) {
                        let (p, q) = choose|p: int, q: int|
                            0 <= p < self.keys@.len() && p < self.rows@.len() && 0 <= q
                                < self.rows@[p]@.len() && self.keys@[p]@ == x && self.rows@[p]@[q]@
                                == y;
                        if p < n {
                            assert(pre.edge(x, y));
                        } else {
                            assert(x == a@ && y == b@);
                        }
                    }
                    if pre.edge(x, y) {
                        let (p, q) = choose|p: int, q: int|
                            0 <= p < pre.keys@.len() && p < pre.rows@.len() && 0 <= q
                                < pre.rows@[p]@.len() && pre.keys@[p]@ == x && pre.rows@[p]@[q]@
                                == y;
                        assert(self.rows@[p]@[q]@ == y);
                        assert(self.edge(x, y));
                    }
                    if x == a@ && y == b@ {
                        assert(self.keys@[n]@ == a@ && self.rows@[n]@[0]@ == b@);
                        assert(self.edge(x, y));
                    }
                }
                assert forall|x: Seq<char>| self.has_node(x) <==> pre.has_node(x) || x == a@ by {
                    let n = pre.keys@.len() as int;
                    if self.has_node(x) {
                        let p = choose|p: int| 0 <= p < self.keys@.len() && self.keys@[p]@ == x;
                        if p < n {
                            assert(pre.has_node(x));
                        }
                    }
                    if pre.has_node(x) {
                        let p = choose|p: int| 0 <= p < pre.keys@.len() && pre.keys@[p]@ == x;
                        assert(self.keys@[p]@ == x);
                    }
                    if x == a@ {
                        assert(self.keys@[n]@ == a@);
                    }
                }
            },
        }
    }

    /// Insert the undirected edge between `a` and `b`, both directions at
    /// once, creating either node entry as needed. Re-inserting an existing
    /// edge changes nothing: edges have set semantics.
    pub fn add_edge(&mut self, a: &String, b: &String)
        requires
            old(self).wf(),
        ensures
            final(self).wf(),
            forall|x: Seq<char>, y: Seq<char>|
                final(self).edge(x, y) <==> old(self).edge(x, y) || (x == a@ && y == b@) || (x
                    == b@ && y == a@),
            forall|x: Seq<char>|
                final(self).has_node(x) <==> old(self).has_node(x) || x == a@ || x == b@,
    {
        let ghost pre = *self;
        self.add_arrow(a, b);
        self.add_arrow(b, a);
        assert forall|x: Seq<char>, y: Seq<char>| self.edge(x, y) implies self.edge(y, x) by {
            if pre.edge(x, y) {
                assert(pre.edge(y, x));
            }
        }
    }

    /// The neighbor list of `a`: `Some` exactly when some row is kept for
    /// `a`, and then the row lists precisely the addresses `a` has an edge
    /// to, each of which is itself a node.
    pub fn neighbors<'a>(&'a self, a: &String) -> (r: Option<&'a Vec<String>>)
        requires
            self.wf(),
        ensures
            match r {
                Some(row) => {
                    &&& forall|k: int| 0 <= k < row@.len() ==> self.edge(a@, #[trigger] row@[k]@)
                    &&& forall|k: int| 0 <= k < row@.len() ==> self.has_node(#[trigger] row@[k]@)
                    &&& forall|y: Seq<char>| self.edge(a@, y) ==> contains_str(row@, y)
                },
                None => forall|y: Seq<char>| !self.edge(a@, y),
            },
    {
        match self.key_index(a) {
            Some(i) => {
                let row = &self.rows[i];
                assert forall|k: int| 0 <= k < row@.len() implies self.edge(
                    a@,
                    #[trigger] row@[k]@,
                ) by {
                    assert(0 <= i < self.keys@.len() && self.keys@[i as int]@ == a@
                        && self.rows@[i as int]@[k]@ == row@[k]@);
                }
                assert forall|k: int| 0 <= k < row@.len() implies self.has_node(
                    #[trigger] row@[k]@,
                ) by {
                    assert(self.edge(a@, row@[k]@));
                    self.lemma_edge_endpoints(a@, row@[k]@);
                }
                assert forall|y: Seq<char>| self.edge(a@, y) implies contains_str(row@, y) by {
                    let (p, q) = choose|p: int, q: int|
                        0 <= p < self.keys@.len() && p < self.rows@.len() && 0 <= q
                            < self.rows@[p]@.len() && self.keys@[p]@ == a@ && self.rows@[p]@[q]@
                            == y;
                    assert(p == i);
                    assert(row@[q]@ == y);
                }
                Some(row)
            },
            None => {
                assert forall|y: Seq<char>| !self.edge(a@, y) by {
                    if self.edge(a@, y) {
                        let (p, q) = choose|p: int, q: int|
                            0 <= p < self.keys@.len() && p < self.rows@.len() && 0 <= q
                                < self.rows@[p]@.len() && self.keys@[p]@ == a@
                                && self.rows@[p]@[q]@ == y;
                        assert(self.has_node(a@));
                    }
                }
                None
            },
        }
    }

    /// A list of pairwise distinct addresses, each a node of a well-formed
    /// graph, is no longer than the node list.
    pub proof fn lemma_distinct_nodes_bound(self, v: Seq<String>)
        requires
            self.wf(),
            forall|i: int, j: int|
                0 <= i < v.len() && 0 <= j < v.len() && i != j ==> v[i]@ != v[j]@,
            forall|i: int| 0 <= i < v.len() ==> self.has_node(#[trigger] v[i]@),
        ensures
            v.len() <= self.node_count(),
    {
        let vs = Seq::new(v.len(), |i: int| v[i]@);
        let ks = Seq::new(self.keys@.len(), |i: int| self.keys@[i]@);
        assert(vs.no_duplicates());
        assert(ks.no_duplicates());
        assert forall|x: Seq<char>| vs.to_set().contains(x) implies ks.to_set().contains(x) by {
            let i = choose|i: int| 0 <= i < vs.len() && vs[i] == x;
            assert(self.has_node(v[i]@));
            let p = choose|p: int| 0 <= p < self.keys@.len() && self.keys@[p]@ == x;
            assert(ks[p] == x);
        }
        vs.unique_seq_to_set();
        ks.unique_seq_to_set();
        vstd::seq_lib::seq_to_set_is_finite(ks);
        vstd::set_lib::lemma_len_subset(vs.to_set(), ks.to_set());
    }
}

/// A participant list links `x` and `y` through its entries before
/// position `j`: the list has at least two entries, one of `x` and `y` is
/// its first entry (the anchor) and the other stands at some position in
/// `1 .. j` (an associate).
pub open spec fn keys_link_upto(kv: Seq<Seq<char>>, j: int, x: Seq<char>, y: Seq<char>) -> bool {
    kv.len() >= 2 && ((kv[0] == x && exists|i: int| 1 <= i < j && kv[i] == y) || (kv[0] == y
        && exists|i: int| 1 <= i < j && kv[i] == x))
}

/// The record `r` links `x` and `y`: its participant list is present, one
/// of `x` and `y` is the anchor (first entry) and the other appears among
/// the remaining entries.
pub open spec fn record_links(r: TransactionRecord, x: Seq<char>, y: Seq<char>) -> bool {
    match r.keys() {
        Some(kv) => keys_link_upto(kv, kv.len() as int, x, y),
        None => false,
    }
}

/// Some record of the collection links `x` and `y`. This is exactly the
/// edge relation of the graph the builder returns.
pub open spec fn records_edge(ts: Seq<TransactionRecord>, x: Seq<char>, y: Seq<char>) -> bool {
    exists|t: int| 0 <= t < ts.len() && record_links(ts[t], x, y)
}

/// `x` is an endpoint of some derived edge. This is exactly the node set of
/// the graph the builder returns: an address becomes a node only when an
/// edge touches it.
pub open spec fn records_node(ts: Seq<TransactionRecord>, x: Seq<char>) -> bool {
    exists|y: Seq<char>| records_edge(ts, x, y)
}

/// Build the co-occurrence graph of a collection of transaction records.
///
/// For every record carrying a participant list of two or more addresses,
/// the first entry is the anchor and an undirected edge is inserted between
/// it and every other entry. Records without the list, or with fewer than
/// two entries, contribute nothing; the builder never fails, and no usable
/// data yields the empty graph.
pub fn build_transaction_graph(transactions: &Vec<TransactionRecord>) -> (g: Graph)
    ensures
        g.wf(),
        forall|x: Seq<char>, y: Seq<char>| g.edge(x, y) <==> records_edge(transactions@, x, y),
        forall|x: Seq<char>| g.has_node(x) <==> records_node(transactions@, x),
{
    let ts = transactions;
    let mut g = Graph::new();
    let mut t: usize = 0;
    while t < ts.len()
        invariant
            g.wf(),
            t <= ts@.len(),
            forall|x: Seq<char>, y: Seq<char>|
                g.edge(x, y) <==> records_edge(ts@.take(t as int), x, y),
            forall|x: Seq<char>| g.has_node(x) <==> records_node(ts@.take(t as int), x),
        decreases ts@.len() - t,
    {
        let rec = &ts[t];
        match &rec.account_keys {
            Some(keys) => {
                if keys.len() >= 2 {
                    let ghost kv = Seq::new(keys@.len(), |i: int| keys@[i]@);
                    assert(rec.keys() == Some(kv));
                    let mut j: usize = 1;
                    while j < keys.len()
                        invariant
                            g.wf(),
                            1 <= j <= keys@.len(),
                            2 <= keys@.len(),
                            kv == Seq::new(keys@.len(), |i: int| keys@[i]@),
                            forall|x: Seq<char>, y: Seq<char>|
                                g.edge(x, y) <==> records_edge(ts@.take(t as int), x, y)
                                    || keys_link_upto(kv, j as int, x, y),
                            forall|x: Seq<char>|
                                g.has_node(x) <==> records_node(ts@.take(t as int), x) || (
                                exists|y: Seq<char>| keys_link_upto(kv, j as int, x, y)),
                        decreases keys@.len() - j,
                    {
                        let ghost pre = g;
                        let ghost j1 = j as int + 1;
                        g.add_edge(&keys[0], &keys[j]);
                        assert forall|x: Seq<char>, y: Seq<char>|
                            g.edge(x, y) <==> records_edge(ts@.take(t as int), x, y)
                                || keys_link_upto(kv, j as int + 1, x, y) by {
                            assert(kv[0] == keys@[0]@ && kv[j as int] == keys@[j as int]@);
                            if keys_link_upto(kv, j as int + 1, x, y) && !keys_link_upto(
                                kv,
                                j as int,
                                x,
                                y,
                            ) {
                                assert((x == kv[0] && y == kv[j as int]) || (y == kv[0] && x
                                    == kv[j as int]));
                            }
                        }
                        assert forall|x: Seq<char>|
                            g.has_node(x) <==> records_node(ts@.take(t as int), x) || (exists|y: Seq<char>|
                            keys_link_upto(kv, j1, x, y)) by {
                            assert(kv[0] == keys@[0]@ && kv[j as int] == keys@[j as int]@);
                            if g.has_node(x) {
                                if pre.has_node(x) {
                                    if exists|y: Seq<char>| keys_link_upto(kv, j as int, x, y) {
                                        let y = choose|y: Seq<char>|
                                            keys_link_upto(kv, j as int, x, y);
                                        assert(keys_link_upto(kv, j1, x, y));
                                    }
                                } else if x == kv[0] {
                                    assert(keys_link_upto(kv, j1, x, kv[j as int]));
                                } else {
                                    assert(x == kv[j as int]);
                                    assert(keys_link_upto(kv, j1, x, kv[0]));
                                }
                            }
                            if records_node(ts@.take(t as int), x) {
                                assert(pre.has_node(x));
                                assert(g.has_node(x));
                            }
                            if exists|y: Seq<char>| keys_link_upto(kv, j1, x, y) {
                                let y = choose|y: Seq<char>| keys_link_upto(kv, j1, x, y);
                                if keys_link_upto(kv, j as int, x, y) {
                                    assert(pre.has_node(x));
                                    assert(g.has_node(x));
                                } else {
                                    assert(x == kv[0] || x == kv[j as int]);
                                    assert(g.has_node(x));
                                }
                            }
                        }
                        j += 1;
                    }
                    assert forall|x: Seq<char>, y: Seq<char>|
                        g.edge(x, y) <==> records_edge(ts@.take(t as int + 1), x, y) by {
                        lemma_records_edge_step(ts@, t as int, x, y);
                        assert(keys_link_upto(kv, keys@.len() as int, x, y) == record_links(
                            ts@[t as int],
                            x,
                            y,
                        ));
                    }
                    assert forall|x: Seq<char>|
                        g.has_node(x) <==> records_node(ts@.take(t as int + 1), x) by {
                        lemma_records_node_step(ts@, t as int, x);
                        assert forall|y: Seq<char>|
                            keys_link_upto(kv, keys@.len() as int, x, y) == record_links(
                            ts@[t as int],
                            x,
                            y,
                        ) by {}
                    }
                } else {
                    assert forall|x: Seq<char>, y: Seq<char>|
                        g.edge(x, y) <==> records_edge(ts@.take(t as int + 1), x, y) by {
                        lemma_records_edge_step(ts@, t as int, x, y);
                    }
                    assert forall|x: Seq<char>|
                        g.has_node(x) <==> records_node(ts@.take(t as int + 1), x) by {
                        lemma_records_node_step(ts@, t as int, x);
                    }
                }
            },
            None => {
                assert forall|x: Seq<char>, y: Seq<char>|
                    g.edge(x, y) <==> records_edge(ts@.take(t as int + 1), x, y) by {
                    lemma_records_edge_step(ts@, t as int, x, y);
                }
                assert forall|x: Seq<char>|
                    g.has_node(x) <==> records_node(ts@.take(t as int + 1), x) by {
                    lemma_records_node_step(ts@, t as int, x);
                }
            },
        }
        t += 1;
    }
    assert(ts@.take(t as int) =~= ts@);
    g
}

/// Extending the processed prefix by one record extends the derived edges
/// by exactly the links of that record.
proof fn lemma_records_edge_step(ts: Seq<TransactionRecord>, t: int, x: Seq<char>, y: Seq<char>)
    requires
        0 <= t < ts.len(),
    ensures
        records_edge(ts.take(t + 1), x, y) <==> records_edge(ts.take(t), x, y) || record_links(
            ts[t],
            x,
            y,
        ),
{
    let pre = ts.take(t);
    let cur = ts.take(t + 1);
    assert(cur =~= pre.push(ts[t]));
    if records_edge(cur, x, y) {
        let w = choose|w: int| 0 <= w < cur.len() && record_links(cur[w], x, y);
        if w < t {
            assert(pre[w] == cur[w]);
            assert(records_edge(pre, x, y));
        } else {
            assert(cur[w] == ts[t]);
        }
    }
    if records_edge(pre, x, y) {
        let w = choose|w: int| 0 <= w < pre.len() && record_links(pre[w], x, y);
        assert(cur[w] == pre[w]);
        assert(records_edge(cur, x, y));
    }
    if record_links(ts[t], x, y) {
        assert(cur[t] == ts[t]);
        assert(records_edge(cur, x, y));
    }
}

/// Extending the processed prefix by one record extends the touched
/// addresses by exactly the endpoints of that record's links.
proof fn lemma_records_node_step(ts: Seq<TransactionRecord>, t: int, x: Seq<char>)
    requires
        0 <= t < ts.len(),
    ensures
        records_node(ts.take(t + 1), x) <==> records_node(ts.take(t), x) || (exists|y: Seq<char>|
            record_links(ts[t], x, y)),
{
    let pre = ts.take(t);
    let cur = ts.take(t + 1);
    if records_node(cur, x) {
        let y = choose|y: Seq<char>| records_edge(cur, x, y);
        lemma_records_edge_step(ts, t, x, y);
    }
    if records_node(pre, x) {
        let y = choose|y: Seq<char>| records_edge(pre, x, y);
        lemma_records_edge_step(ts, t, x, y);
        assert(records_edge(cur, x, y));
    }
    if exists|y: Seq<char>| record_links(ts[t], x, y) {
        let y = choose|y: Seq<char>| record_links(ts[t], x, y);
        lemma_records_edge_step(ts, t, x, y);
        assert(records_edge(cur, x, y));
    }
}

/// Edge generation: a lone record whose participant list is `[a, b, c]`
/// puts the edges `a - b` and `a - c` in the built graph, and not `b - c`.
pub proof fn lemma_edge_generation(
    g: Graph,
    ts: Seq<TransactionRecord>,
    a: Seq<char>,
    b: Seq<char>,
    c: Seq<char>,
)
    requires
        forall|x: Seq<char>, y: Seq<char>| g.edge(x, y) <==> records_edge(ts, x, y),
        ts.len() == 1,
        ts[0].keys() == Some(seq![a, b, c]),
        a != b,
        a != c,
    ensures
        g.edge(a, b),
        g.edge(a, c),
        !g.edge(b, c),
{
    let kv = seq![a, b, c];
    assert(kv[0] == a && kv[1] == b && kv[2] == c);
    assert(record_links(ts[0], a, b));
    assert(record_links(ts[0], a, c));
    assert(records_edge(ts, a, b));
    assert(records_edge(ts, a, c));
    if records_edge(ts, b, c) {
        let t = choose|t: int| 0 <= t < ts.len() && record_links(ts[t], b, c);
        assert(t == 0);
        assert(kv[0] == b || kv[0] == c);
    }
}

/// Degenerate records: a collection in which every record lacks its
/// participant list or lists at most one address builds the edgeless graph.
pub proof fn lemma_degenerate_records(g: Graph, ts: Seq<TransactionRecord>)
    requires
        forall|x: Seq<char>, y: Seq<char>| g.edge(x, y) <==> records_edge(ts, x, y),
        forall|x: Seq<char>| g.has_node(x) <==> records_node(ts, x),
        forall|t: int|
            0 <= t < ts.len() ==> match #[trigger] ts[t].keys() {
                Some(kv) => kv.len() <= 1,
                None => true,
            },
    ensures
        forall|x: Seq<char>, y: Seq<char>| !g.edge(x, y),
        forall|x: Seq<char>| !g.has_node(x),
{
    assert forall|x: Seq<char>, y: Seq<char>| !g.edge(x, y) by {
        if records_edge(ts, x, y) {
            let t = choose|t: int| 0 <= t < ts.len() && record_links(ts[t], x, y);
            assert(match ts[t].keys() {
                Some(kv) => kv.len() <= 1,
                None => true,
            });
        }
    }
    assert forall|x: Seq<char>| !g.has_node(x) by {
        if records_node(ts, x) {
            let y = choose|y: Seq<char>| records_edge(ts, x, y);
            assert(!g.edge(x, y));
        }
    }
}

} // verus!
