//! A citation graph held as a list of nodes and a list of edges.
use crate::dag::Dag;
use crate::id_map::IdMap;
use crate::records::{
    lemma_texts_push,
    id_positions, lemma_id_positions_bound, lemma_id_positions_contains, paper_of, CSVRecord, Paper,
};
use crate::seq_lemmas::{lemma_filter_map_contains, lemma_filter_map_push, lemma_filter_map_take};
use crate::text::{texts, texts_distinct};
use vstd::prelude::*;

verus! {

/// An edge leaves `n`.
pub open spec fn leaves(n: usize) -> spec_fn((usize, usize)) -> bool {
    |e: (usize, usize)| e.0 == n
}

/// An edge enters `n` from another node.
pub open spec fn enters_from_other(n: usize) -> spec_fn((usize, usize)) -> bool {
    |e: (usize, usize)| e.0 != n && e.1 == n
}

/// An edge enters `n`.
pub open spec fn enters(n: usize) -> spec_fn((usize, usize)) -> bool {
    |e: (usize, usize)| e.1 == n
}

/// The citing end of an edge.
pub open spec fn source() -> spec_fn((usize, usize)) -> usize {
    |e: (usize, usize)| e.0
}

/// The cited end of an edge.
pub open spec fn target() -> spec_fn((usize, usize)) -> usize {
    |e: (usize, usize)| e.1
}

/// A reference names a record of the dataset.
pub open spec fn resolvable(m: Map<Seq<char>, usize>) -> spec_fn(String) -> bool {
    |s: String| m.contains_key(s@)
}

/// The edge from the record named `citer` to the record that a reference names.
pub open spec fn edge_to(m: Map<Seq<char>, usize>, citer: Seq<char>) -> spec_fn(String) -> (
    usize,
    usize,
) {
    |s: String| (m[citer], m[s@])
}

/// The strings of `s` whose text does not occur earlier in `s`, in order.
pub open spec fn first_occurrences(s: Seq<String>) -> Seq<String>
    decreases s.len(),
{
    if s.len() == 0 {
        Seq::empty()
    } else if texts(s.drop_last()).contains(s.last()@) {
        first_occurrences(s.drop_last())
    } else {
        first_occurrences(s.drop_last()).push(s.last())
    }
}

/// Keeping first occurrences keeps every text once and adds none.
pub proof fn lemma_first_occurrences(s: Seq<String>)
    ensures
        texts(first_occurrences(s)) == texts(s),
        texts_distinct(first_occurrences(s)),
        forall|x: String| first_occurrences(s).contains(x) ==> s.contains(x),
    decreases s.len(),
{
    if s.len() > 0 {
        let t = s.drop_last();
        let x = s.last();
        lemma_first_occurrences(t);
        assert(t.push(x) =~= s);
        lemma_texts_push(t, x);
        let p = first_occurrences(t);
        assert forall|y: String| p.contains(y) implies s.contains(y) by {
            assert(t.contains(y));
            let k = choose|k: int| 0 <= k < t.len() && t[k] == y;
            assert(s[k] == y);
        }
        if !texts(t).contains(x@) {
            lemma_texts_push(p, x);
            assert forall|a: int, b: int| 0 <= a < b < p.push(x).len() implies (#[trigger] p.push(x)[a])@
                != (#[trigger] p.push(x)[b])@ by {
                if b == p.len() {
                    assert(texts(p).contains(p[a]@));
                } else {
                    assert(p[a]@ != p[b]@);
                }
            }
            assert forall|y: String| p.push(x).contains(y) implies s.contains(y) by {
                let k = choose|k: int| 0 <= k < p.push(x).len() && p.push(x)[k] == y;
                if k < p.len() {
                    assert(p[k] == y);
                    assert(p.contains(y));
                } else {
                    assert(s[s.len() - 1] == y);
                }
            }
        } else {
            assert(texts(t).insert(x@) =~= texts(t));
        }
    } else {
        assert(texts(s) =~= texts(first_occurrences(s)));
    }
}

/// The edges of one record, one per reference that names a record, in the order of the
/// references; a reference repeated within the record gives no second edge.
pub open spec fn record_edges(m: Map<Seq<char>, usize>, rec: CSVRecord) -> Seq<(usize, usize)> {
    first_occurrences(rec.references@).filter(resolvable(m)).map_values(edge_to(m, rec.id@))
}

/// The edges of the first `n` records, record after record.
pub open spec fn edges_of(m: Map<Seq<char>, usize>, recs: Seq<CSVRecord>, n: nat) -> Seq<
    (usize, usize),
>
    decreases n,
{
    if n == 0 {
        Seq::empty()
    } else {
        edges_of(m, recs, (n - 1) as nat) + record_edges(m, recs[n - 1])
    }
}

/// The papers that cite the node `t`, as `get_connected_edges` lists them, are the citing
/// ends of exactly the edges into `t` from other nodes; those it cites are the cited ends of
/// exactly the edges out of `t`. No such edge is left out, wherever it stands in the list.
pub proof fn lemma_connected_ends(edges: Seq<(usize, usize)>, t: usize, c: usize)
    ensures
        edges.filter(enters_from_other(t)).map_values(source()).contains(c) <==> (c != t
            && edges.contains((c, t))),
        edges.filter(leaves(t)).map_values(target()).contains(c) <==> edges.contains((t, c)),
{
    lemma_filter_map_contains(edges, enters_from_other(t), source(), c);
    lemma_filter_map_contains(edges, leaves(t), target(), c);
    if edges.contains((c, t)) {
        let k = choose|k: int| 0 <= k < edges.len() && edges[k] == (c, t);
        assert(source()(edges[k]) == c);
    }
    if edges.contains((t, c)) {
        let k = choose|k: int| 0 <= k < edges.len() && edges[k] == (t, c);
        assert(target()(edges[k]) == c);
    }
    if edges.filter(enters_from_other(t)).map_values(source()).contains(c) {
        let k = choose|k: int|
            0 <= k < edges.len() && enters_from_other(t)(edges[k]) && source()(#[trigger] edges[k]) == c;
        assert(edges[k] == (c, t));
    }
    if edges.filter(leaves(t)).map_values(target()).contains(c) {
        let k = choose|k: int| 0 <= k < edges.len() && leaves(t)(edges[k]) && target()(#[trigger] edges[k]) == c;
        assert(edges[k] == (t, c));
    }
}

/// A graph held as its nodes, its edges `(citing, cited)` by node position, and a map from
/// paper identifiers to node positions.
pub struct EdgeListDag<T> {
    pub nodes: Vec<T>,
    pub edges: Vec<(usize, usize)>,
    pub node_map: IdMap,
}

impl<T> EdgeListDag<T> {
    /// A graph without nodes or edges.
    pub fn new() -> (r: Self)
        ensures
            r.nodes@.len() == 0,
            r.edges@.len() == 0,
            r.node_map@ == Map::<Seq<char>, usize>::empty(),
    {
        EdgeListDag { nodes: Vec::new(), edges: Vec::new(), node_map: IdMap::new() }
    }

    /// Every edge that leaves `t` enters a node, and every edge that enters `t` from another
    /// node leaves a node.
    pub open spec fn ends_known(&self, t: usize) -> bool {
        forall|e: int|
            0 <= e < self.edges@.len() ==> ((#[trigger] self.edges@[e]).0 == t ==> self.edges@[e].1
                < self.nodes@.len()) && (self.edges@[e].0 != t && self.edges@[e].1 == t
                ==> self.edges@[e].0 < self.nodes@.len())
    }

    /// Records that the paper at `citer_idx` cites the one at `cited_idx`.
    pub fn add_edge(&mut self, citer_idx: usize, cited_idx: usize)
        ensures
            final(self).edges@ == old(self).edges@.push((citer_idx, cited_idx)),
            final(self).nodes@ == old(self).nodes@,
            final(self).node_map@ == old(self).node_map@,
    {
        self.edges.push((citer_idx, cited_idx));
    }

    /// The papers that cite the paper `target_id` and those that it cites, in the order of
    /// the edge list; `None` when no paper has that identifier. An edge from the paper to
    /// itself counts only among those it cites.
    pub fn get_connected_edges(&self, target_id: &str) -> (r: Option<(Vec<&T>, Vec<&T>)>)
        requires
            self.node_map@.contains_key(target_id@) ==> self.ends_known(self.node_map@[target_id@]),
        ensures
            match r {
                None => !self.node_map@.contains_key(target_id@),
                Some((incoming, outgoing)) => {
                    let t = self.node_map@[target_id@];
                    let ins = self.edges@.filter(enters_from_other(t)).map_values(source());
                    let outs = self.edges@.filter(leaves(t)).map_values(target());
                    &&& self.node_map@.contains_key(target_id@)
                    &&& incoming@.len() == ins.len()
                    &&& forall|k: int|
                        0 <= k < ins.len() ==> *incoming@[k] == self.nodes@[#[trigger] ins[k] as int]
                    &&& outgoing@.len() == outs.len()
                    &&& forall|k: int|
                        0 <= k < outs.len() ==> *outgoing@[k] == self.nodes@[#[trigger] outs[k] as int]
                    &&& forall|c: usize| ins.contains(c) <==> (c != t && self.edges@.contains((c, t)))
                    &&& forall|c: usize| outs.contains(c) <==> self.edges@.contains((t, c))
                },
            },
    {
        let key: String = target_id.to_owned();
        let target_idx = match self.node_map.get(&key) {
            Some(i) => i,
            None => {
                return None;
            },
        };
        let ghost t = target_idx;
        let mut incoming: Vec<&T> = Vec::new();
        let mut outgoing: Vec<&T> = Vec::new();
        let mut i: usize = 0;
        while i < self.edges.len()
            invariant
                self.ends_known(t),
                i <= self.edges@.len(),
                t == target_idx,
                incoming@.len() == self.edges@.take(i as int).filter(enters_from_other(t)).map_values(
                    source(),
                ).len(),
                forall|k: int|
                    0 <= k < incoming@.len() ==> *incoming@[k] == self.nodes@[#[trigger] self.edges@.take(
                        i as int,
                    ).filter(enters_from_other(t)).map_values(source())[k] as int],
                outgoing@.len() == self.edges@.take(i as int).filter(leaves(t)).map_values(
                    target(),
                ).len(),
                forall|k: int|
                    0 <= k < outgoing@.len() ==> *outgoing@[k] == self.nodes@[#[trigger] self.edges@.take(
                        i as int,
                    ).filter(leaves(t)).map_values(target())[k] as int],
            decreases self.edges@.len() - i,
        {
            let (citer, cited) = self.edges[i];
            proof {
                lemma_filter_map_take(self.edges@, i as int, enters_from_other(t), source());
                lemma_filter_map_take(self.edges@, i as int, leaves(t), target());
            }
            if citer == target_idx {
                outgoing.push(&self.nodes[cited]);
            } else if cited == target_idx {
                incoming.push(&self.nodes[citer]);
            }
            i = i + 1;
        }
        assert(self.edges@.take(i as int) =~= self.edges@);
        proof {
            assert forall|c: usize| #![auto] self.edges@.filter(enters_from_other(t)).map_values(source()).contains(c)
                <==> (c != t && self.edges@.contains((c, t))) by {
                lemma_connected_ends(self.edges@, t, c);
            }
            assert forall|c: usize| #![auto] self.edges@.filter(leaves(t)).map_values(target()).contains(c)
                <==> self.edges@.contains((t, c)) by {
                lemma_connected_ends(self.edges@, t, c);
            }
        }
        Some((incoming, outgoing))
    }

    /// The weight of a node, to change it.
    pub fn index_mut(&mut self, index: &usize) -> (r: &mut T)
        requires
            *index < old(self).nodes@.len(),
        ensures
            *r == old(self).nodes@[*index as int],
            final(self).nodes@ == old(self).nodes@.update(*index as int, *final(r)),
            final(self).edges@ == old(self).edges@,
            final(self).node_map@ == old(self).node_map@,
    {
        &mut self.nodes[*index]
    }

    /// The weight of the node `id`, to change it, if `id` names a node.
    pub fn get_mut(&mut self, id: &usize) -> (r: Option<&mut T>)
        ensures
            final(self).edges@ == old(self).edges@,
            final(self).node_map@ == old(self).node_map@,
            match r {
                Some(w) => {
                    &&& *id < old(self).nodes@.len()
                    &&& *w == old(self).nodes@[*id as int]
                    &&& final(self).nodes@ == old(self).nodes@.update(*id as int, *final(w))
                },
                None => {
                    &&& *id >= old(self).nodes@.len()
                    &&& final(self).nodes@ == old(self).nodes@
                },
            },
    {
        if *id < self.nodes.len() {
            Some(&mut self.nodes[*id])
        } else {
            None
        }
    }
}

impl EdgeListDag<Paper> {
    /// The graph of a dataset: a node per record, in order, and an edge per reference that
    /// names a record of the dataset. An identifier that several records share names the
    /// last of them.
    pub fn from_records(records: Vec<CSVRecord>) -> (r: Self)
        ensures
            r.wf(),
            r.edges_closed(),
            r.nodes@ == records@.map_values(|rec: CSVRecord| paper_of(rec)),
            r.node_map@ == id_positions(records@),
            r.edges@ == edges_of(id_positions(records@), records@, records@.len()),
    {
        let mut dag: EdgeListDag<Paper> = EdgeListDag::new();
        let mut i: usize = 0;
        while i < records.len()
            invariant
                i <= records@.len(),
                dag.nodes@ == records@.take(i as int).map_values(|rec: CSVRecord| paper_of(rec)),
                dag.node_map@ == id_positions(records@.take(i as int)),
                dag.edges@.len() == 0,
            decreases records@.len() - i,
        {
            let paper = Paper::from_record(&records[i]);
            let idx = dag.nodes.len();
            dag.node_map.insert(paper.id.clone(), idx);
            dag.nodes.push(paper);
            proof {
                assert(records@.take(i + 1).drop_last() =~= records@.take(i as int));
                assert(dag.nodes@ =~= records@.take(i + 1).map_values(|rec: CSVRecord| paper_of(rec)));
            }
            i = i + 1;
        }
        assert(records@.take(i as int) =~= records@);
        let ghost m = id_positions(records@);
        proof {
            lemma_id_positions_bound(records@);
        }
        let mut i: usize = 0;
        while i < records.len()
            invariant
                i <= records@.len(),
                m == id_positions(records@),
                dag.node_map@ == m,
                dag.nodes@ == records@.map_values(|rec: CSVRecord| paper_of(rec)),
                dag.edges@ == edges_of(m, records@, i as nat),
                forall|k: Seq<char>| #[trigger] m.contains_key(k) ==> m[k] < records@.len(),
            decreases records@.len() - i,
        {
            let rec = &records[i];
            proof {
                lemma_id_positions_contains(records@, i as int);
            }
            if let Some(citer_idx) = dag.node_map.get(&rec.id) {
                let ghost base = dag.edges@;
                let mut seen: Vec<String> = Vec::new();
                let mut j: usize = 0;
                assert(texts(seen@) =~= texts(rec.references@.take(0)));
                while j < rec.references.len()
                    invariant
                        j <= rec.references@.len(),
                        rec == &records@[i as int],
                        m.contains_key(rec.id@),
                        citer_idx == m[rec.id@],
                        dag.node_map@ == m,
                        dag.nodes@ == records@.map_values(|rec: CSVRecord| paper_of(rec)),
                        texts(seen@) == texts(rec.references@.take(j as int)),
                        dag.edges@ == base + first_occurrences(rec.references@.take(j as int)).filter(
                            resolvable(m),
                        ).map_values(edge_to(m, rec.id@)),
                    decreases rec.references@.len() - j,
                {
                    let refr = &rec.references[j];
                    let ghost pre = rec.references@.take(j as int);
                    let ghost post = rec.references@.take(j + 1);
                    assert(post.drop_last() =~= pre);
                    assert(post.last() == *refr);
                    if !crate::text::contains_text(&seen, refr) {
                        proof {
                            assert(!texts(pre).contains(refr@)) by {
                                if texts(seen@).contains(refr@) {
                                    let k = choose|k: int| 0 <= k < seen@.len() && (#[trigger] seen@[k])@ == refr@;
                                }
                            }
                            lemma_filter_map_push(
                                first_occurrences(pre),
                                *refr,
                                resolvable(m),
                                edge_to(m, rec.id@),
                            );
                            lemma_texts_push(seen@, *refr);
                            lemma_texts_push(pre, *refr);
                            assert(pre.push(*refr) =~= post);
                        }
                        seen.push(refr.clone());
                        if let Some(cited_idx) = dag.node_map.get(refr) {
                            dag.add_edge(citer_idx, cited_idx);
                        }
                    } else {
                        proof {
                            let k = choose|k: int| 0 <= k < seen@.len() && (#[trigger] seen@[k])@ == refr@;
                            assert(texts(seen@).contains(refr@));
                            lemma_texts_push(pre, *refr);
                            assert(pre.push(*refr) =~= post);
                            assert(texts(post) =~= texts(pre));
                        }
                    }
                    j = j + 1;
                }
                assert(rec.references@.take(j as int) =~= rec.references@);
            }
            i = i + 1;
        }
        proof {
            assert forall|i: int| 0 <= i < records@.len() implies m.contains_key(
                (#[trigger] records@[i]).id@,
            ) by {
                lemma_id_positions_contains(records@, i);
            }
            assert forall|e: int| 0 <= e < dag.edges@.len() implies (#[trigger] dag.edges@[e]).0
                < dag.nodes@.len() && dag.edges@[e].1 < dag.nodes@.len() by {
                lemma_edges_of_bound(m, records@, records@.len(), e);
            }
        }
        dag
    }
}

/// Both ends of every edge of the dataset are node positions.
proof fn lemma_edges_of_bound(m: Map<Seq<char>, usize>, recs: Seq<CSVRecord>, n: nat, e: int)
    requires
        n <= recs.len(),
        forall|k: Seq<char>| #[trigger] m.contains_key(k) ==> m[k] < recs.len(),
        forall|i: int| 0 <= i < n ==> m.contains_key((#[trigger] recs[i]).id@),
        0 <= e < edges_of(m, recs, n).len(),
    ensures
        edges_of(m, recs, n)[e].0 < recs.len(),
        edges_of(m, recs, n)[e].1 < recs.len(),
    decreases n,
{
    let prev = edges_of(m, recs, (n - 1) as nat);
    if e < prev.len() {
        lemma_edges_of_bound(m, recs, (n - 1) as nat, e);
    } else {
        let rec = recs[n - 1];
        let x = edges_of(m, recs, n)[e];
        lemma_filter_map_contains(first_occurrences(rec.references@), resolvable(m), edge_to(m, rec.id@), x);
        assert(record_edges(m, rec)[e - prev.len()] == x);
        assert(record_edges(m, rec).contains(x));
        let fo = first_occurrences(rec.references@);
        let r = choose|r: int|
            0 <= r < fo.len() && resolvable(m)(fo[r]) && edge_to(
                m,
                rec.id@,
            )(#[trigger] fo[r]) == x;
        assert(m.contains_key(rec.id@));
    }
}

impl<T> Dag<T, usize> for EdgeListDag<T> {
    /// Any lists of nodes and edges make a graph.
    open spec fn wf(&self) -> bool {
        true
    }

    /// Every edge joins two nodes of the list.
    open spec fn edges_closed(&self) -> bool {
        forall|e: int|
            0 <= e < self.edges@.len() ==> (#[trigger] self.edges@[e]).0 < self.nodes@.len()
                && self.edges@[e].1 < self.nodes@.len()
    }

    open spec fn contains_node(&self, id: usize) -> bool {
        id < self.nodes@.len()
    }

    open spec fn has_edge(&self, from: usize, to: usize) -> bool {
        self.edges@.contains((from, to))
    }

    open spec fn weight(&self, id: usize) -> T {
        self.nodes@[id as int]
    }

    open spec fn searchable(&self, id: usize) -> bool {
        id < self.nodes@.len()
    }

    open spec fn out_list(&self, node: usize) -> Seq<usize> {
        self.edges@.filter(leaves(node)).map_values(target())
    }

    open spec fn in_list(&self, node: usize) -> Seq<usize> {
        self.edges@.filter(enters(node)).map_values(source())
    }

    /// Nodes are looked at in order of position.
    open spec fn scanned_before(&self, a: usize, b: usize) -> bool {
        a < b
    }

    open spec fn steppable(&self, id: usize) -> bool {
        true
    }

    proof fn lemma_edge_ends(&self, from: usize, to: usize) {
        let e = choose|e: int| 0 <= e < self.edges@.len() && self.edges@[e] == (from, to);
        assert(self.edges@[e].0 < self.nodes@.len());
    }

    proof fn lemma_searchable_node(&self, id: usize) {
    }

    open spec fn node_count(&self) -> nat {
        self.nodes@.len()
    }

    open spec fn node_index(&self, id: usize) -> nat {
        id as nat
    }

    proof fn lemma_node_index(&self, a: usize, b: usize) {
    }

    /// The cited ends of the edges that leave `node`, in the order of the edge list.
    fn neighbors(&self, node: &usize) -> (r: Vec<usize>)
        ensures
            r@ == self.edges@.filter(leaves(*node)).map_values(target()),
    {
        let mut r: Vec<usize> = Vec::new();
        let mut i: usize = 0;
        while i < self.edges.len()
            invariant
                i <= self.edges@.len(),
                r@ == self.edges@.take(i as int).filter(leaves(*node)).map_values(target()),
            decreases self.edges@.len() - i,
        {
            proof {
                lemma_filter_map_take(self.edges@, i as int, leaves(*node), target());
            }
            let (citer, cited) = self.edges[i];
            if citer == *node {
                r.push(cited);
            }
            i = i + 1;
        }
        assert(self.edges@.take(i as int) =~= self.edges@);
        proof {
            assert forall|m: usize| r@.contains(m) <==> self.has_edge(*node, m) by {
                lemma_filter_map_contains(self.edges@, leaves(*node), target(), m);
                if self.has_edge(*node, m) {
                    let e = choose|e: int| 0 <= e < self.edges@.len() && self.edges@[e] == (*node, m);
                    assert(leaves(*node)(self.edges@[e]) && target()(self.edges@[e]) == m);
                }
                if r@.contains(m) {
                    let e = choose|e: int|
                        0 <= e < self.edges@.len() && leaves(*node)(self.edges@[e]) && target()(
                            #[trigger] self.edges@[e],
                        ) == m;
                    assert(self.edges@[e] == (*node, m));
                }
            }
        }
        r
    }

    /// The citing ends of the edges that enter `node`, in the order of the edge list.
    fn neighbors_back(&self, node: &usize) -> (r: Vec<usize>)
        ensures
            r@ == self.edges@.filter(enters(*node)).map_values(source()),
    {
        let mut r: Vec<usize> = Vec::new();
        let mut i: usize = 0;
        while i < self.edges.len()
            invariant
                i <= self.edges@.len(),
                r@ == self.edges@.take(i as int).filter(enters(*node)).map_values(source()),
            decreases self.edges@.len() - i,
        {
            proof {
                lemma_filter_map_take(self.edges@, i as int, enters(*node), source());
            }
            let (citer, cited) = self.edges[i];
            if cited == *node {
                r.push(citer);
            }
            i = i + 1;
        }
        assert(self.edges@.take(i as int) =~= self.edges@);
        proof {
            assert forall|m: usize| r@.contains(m) <==> self.has_edge(m, *node) by {
                lemma_filter_map_contains(self.edges@, enters(*node), source(), m);
                if self.has_edge(m, *node) {
                    let e = choose|e: int| 0 <= e < self.edges@.len() && self.edges@[e] == (m, *node);
                    assert(enters(*node)(self.edges@[e]) && source()(self.edges@[e]) == m);
                }
                if r@.contains(m) {
                    let e = choose|e: int|
                        0 <= e < self.edges@.len() && enters(*node)(self.edges@[e]) && source()(
                            #[trigger] self.edges@[e],
                        ) == m;
                    assert(self.edges@[e] == (m, *node));
                }
            }
        }
        r
    }

    /// The positions, in increasing order, of the nodes for which `func` holds.
    fn find_nodes<F: Fn(&usize, &T) -> bool>(&self, func: F) -> (r: Vec<usize>)
        ensures
            forall|i: int, j: int| 0 <= i < j < r@.len() ==> r@[i] < r@[j],
    {
        let mut r: Vec<usize> = Vec::new();
        let mut i: usize = 0;
        while i < self.nodes.len()
            invariant
                i <= self.nodes@.len(),
                forall|id: usize, w: T| #[trigger] call_requires(func, (&id, &w)),
                forall|a: int, b: int| 0 <= a < b < r@.len() ==> r@[a] < r@[b],
                forall|a: int| 0 <= a < r@.len() ==> r@[a] < i,
                forall|a: int|
                    0 <= a < r@.len() ==> self.searchable(#[trigger] r@[a]) && call_ensures(
                        func,
                        (&r@[a], &self.weight(r@[a])),
                        true,
                    ),
                forall|id: usize|
                    id < i && !r@.contains(id) ==> call_ensures(
                        func,
                        (&id, &#[trigger] self.weight(id)),
                        false,
                    ),
            decreases self.nodes@.len() - i,
        {
            let ghost old_r = r@;
            let hit = func(&i, &self.nodes[i]);
            if hit {
                r.push(i);
                assert(r@[r@.len() - 1] == i);
            }
            proof {
                assert forall|id: usize|
                    id < i + 1 && !r@.contains(id) implies call_ensures(
                        func,
                        (&id, &#[trigger] self.weight(id)),
                        false,
                    ) by {
                    if old_r.contains(id) {
                        let k = choose|k: int| 0 <= k < old_r.len() && old_r[k] == id;
                        assert(r@[k] == id);
                    }
                }
            }
            i = i + 1;
        }
        proof {
            assert forall|a: int, b: int| 0 <= a < r@.len() && 0 <= b < r@.len() && a != b implies r@[a]
                != r@[b] by {
                if a < b {
                    assert(r@[a] < r@[b]);
                } else {
                    assert(r@[b] < r@[a]);
                }
            }
        }
        r
    }

    /// The first position of a node for which `func` holds.
    fn find_node<F: Fn(&usize, &T) -> bool>(&self, func: F) -> (r: Option<usize>)
        ensures
            match r {
                Some(id) => forall|j: usize|
                    j < id ==> call_ensures(func, (&j, &#[trigger] self.weight(j)), false),
                None => true,
            },
    {
        let mut i: usize = 0;
        while i < self.nodes.len()
            invariant
                i <= self.nodes@.len(),
                forall|id: usize, w: T| #[trigger] call_requires(func, (&id, &w)),
                forall|j: usize| j < i ==> call_ensures(func, (&j, &#[trigger] self.weight(j)), false),
            decreases self.nodes@.len() - i,
        {
            if func(&i, &self.nodes[i]) {
                return Some(i);
            }
            i = i + 1;
        }
        None
    }

    fn get(&self, id: &usize) -> (r: Option<&T>) {
        if *id < self.nodes.len() {
            Some(&self.nodes[*id])
        } else {
            None
        }
    }

    fn index(&self, id: &usize) -> (r: &T) {
        &self.nodes[*id]
    }

    fn same_node(&self, a: &usize, b: &usize) -> (r: bool) {
        *a == *b
    }
}

impl<T> Default for EdgeListDag<T> {
    /// A graph without nodes or edges.
    fn default() -> (r: Self)
        ensures
            r.nodes@.len() == 0,
            r.edges@.len() == 0,
            r.node_map@ == Map::<Seq<char>, usize>::empty(),
    {
        Self::new()
    }
}

} // verus!
