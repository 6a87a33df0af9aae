//! A citation graph held as an adjacency matrix.
use crate::dag::Dag;
use crate::id_map::IdMap;
use crate::ndarray::{lemma_square_index, lemma_square_shape, Array};
use crate::records::{
    cited_ids, id_positions, ids_distinct, lemma_id_positions_distinct, paper_of, CSVRecord, Paper,
};
use crate::seq_lemmas::lemma_filter_take;
use vstd::prelude::*;

verus! {

/// A graph held as its nodes, a map from paper identifiers to node positions, and a square
/// matrix whose cell `[i, j]` is set when node `i` cites node `j`.
pub struct AdjDag<T> {
    nodes: Vec<T>,
    indexmap: IdMap,
    adj: Array<bool>,
}

impl<T> AdjDag<T> {
    /// The weights of the nodes, by position.
    pub closed spec fn node_weights(&self) -> Seq<T> {
        self.nodes@
    }

    /// Node `i` cites node `j`.
    pub closed spec fn cites(&self, i: int, j: int) -> bool {
        self.adj.cells()[i * self.nodes@.len() + j]
    }

    /// The matrix is square, with a row and a column per node.
    pub closed spec fn square(&self) -> bool {
        let n = self.nodes@.len();
        &&& n * n <= usize::MAX
        &&& self.adj.shape_view() == seq![n as usize, n as usize]
        &&& self.adj.cells().len() == n * n
    }

    /// The map from paper identifiers to node positions.
    pub closed spec fn id_map(&self) -> Map<Seq<char>, usize> {
        self.indexmap@
    }

    /// Whether node `i` cites node `j`.
    fn edge(&self, i: usize, j: usize) -> (r: bool)
        requires
            self.wf(),
            i < self.nodes@.len(),
            j < self.nodes@.len(),
        ensures
            r == self.cites(i as int, j as int),
    {
        let n = self.nodes.len();
        proof {
            lemma_square_index(i, j, n);
        }
        *self.adj.index(&[i, j])
    }

    /// The adjacency matrix: its cell `[i, j]` is set when node `i` cites node `j`.
    pub fn adjacency(&self) -> (r: &Array<bool>)
        ensures
            forall|i: int, j: int|
                0 <= i < self.node_weights().len() && 0 <= j < self.node_weights().len() ==> #[trigger] self.cites(i, j)
                    == r.cells()[i * self.node_weights().len() + j],
            self.square() ==> r.shape_view() == seq![
                self.node_weights().len() as usize,
                self.node_weights().len() as usize,
            ] && r.cells().len() == self.node_weights().len() * self.node_weights().len(),
    {
        &self.adj
    }

    /// The weight of a node, to change it.
    pub fn index_mut(&mut self, index: &usize) -> (r: &mut T)
        requires
            *index < old(self).node_weights().len(),
        ensures
            *r == old(self).node_weights()[*index as int],
            final(self).node_weights() == old(self).node_weights().update(*index as int, *final(r)),
            forall|i: int, j: int| #[trigger] final(self).cites(i, j) == old(self).cites(i, j),
            final(self).id_map() == old(self).id_map(),
            final(self).square() == old(self).square(),
    {
        &mut self.nodes[*index]
    }

    /// The weight of the node `id`, to change it, if `id` names a node.
    pub fn get_mut(&mut self, id: &usize) -> (r: Option<&mut T>)
        ensures
            forall|i: int, j: int| #[trigger] final(self).cites(i, j) == old(self).cites(i, j),
            final(self).id_map() == old(self).id_map(),
            final(self).square() == old(self).square(),
            match r {
                Some(w) => {
                    &&& *id < old(self).node_weights().len()
                    &&& *w == old(self).node_weights()[*id as int]
                    &&& final(self).node_weights() == old(self).node_weights().update(*id as int, *final(w))
                },
                None => {
                    &&& *id >= old(self).node_weights().len()
                    &&& final(self).node_weights() == old(self).node_weights()
                },
            },
    {
        if *id < self.nodes.len() {
            Some(&mut self.nodes[*id])
        } else {
            None
        }
    }
}

impl AdjDag<Paper> {
    /// The graph of a dataset whose records have distinct identifiers: a node per record,
    /// in order, and an edge from each record to each record it cites.
    pub fn from_records(records: Vec<CSVRecord>) -> (r: Self)
        requires
            ids_distinct(records@),
            records@.len() * records@.len() <= usize::MAX,
        ensures
            r.wf(),
            r.node_weights() == records@.map_values(|rec: CSVRecord| paper_of(rec)),
            r.id_map() == id_positions(records@),
            forall|i: int, j: int|
                0 <= i < records@.len() && 0 <= j < records@.len() ==> (#[trigger] r.cites(i, j)
                    <==> cited_ids(records@[i]).contains(records@[j].id@)),
    {
        let n = records.len();
        let mut indexmap = IdMap::new();
        let mut i: usize = 0;
        while i < n
            invariant
                n == records@.len(),
                i <= n,
                indexmap@ == id_positions(records@.take(i as int)),
            decreases n - i,
        {
            indexmap.insert(records[i].id.clone(), i);
            assert(records@.take(i + 1).drop_last() =~= records@.take(i as int));
            i = i + 1;
        }
        assert(records@.take(i as int) =~= records@);
        proof {
            lemma_square_shape(n);
            lemma_id_positions_distinct(records@);
        }
        let mut adj: Array<bool> = Array::from_default(&[n, n]);
        assert forall|k: int| 0 <= k < adj.cells().len() implies adj.cells()[k] == false by {
            assert(call_ensures(bool::default, (), adj.cells()[k]));
        }
        let ghost m = indexmap@;
        assert forall|a: int, b: int|
            0 <= a < n && 0 <= b < n implies (adj.cells()[#[trigger] (a * n + b)] <==> (a < 0
                && cited_ids(records@[a]).contains(records@[b].id@))) by {
            lemma_cell_bound(a, b, n as int);
        }
        let mut i: usize = 0;
        while i < n
            invariant
                n == records@.len(),
                n * n <= usize::MAX,
                i <= n,
                m == indexmap@,
                m == id_positions(records@),
                ids_distinct(records@),
                forall|a: int| 0 <= a < n ==> m.contains_key((#[trigger] records@[a]).id@) && m[records@[a].id@] == a,
                forall|k: Seq<char>| #[trigger] m.contains_key(k) ==> exists|a: int| 0 <= a < n && records@[a].id@ == k,
                adj.shape_view() == seq![n, n],
                adj.cells().len() == n * n,
                forall|a: int, b: int|
                    0 <= a < n && 0 <= b < n ==> (adj.cells()[#[trigger] (a * n + b)] <==> (a < i
                        && cited_ids(records@[a]).contains(records@[b].id@))),
            decreases n - i,
        {
            let rec = &records[i];
            let row = match indexmap.get(&rec.id) {
                Some(r) => r,
                None => i,
            };
            assert(row == i);
            let mut j: usize = 0;
            while j < rec.references.len()
                invariant
                    n == records@.len(),
                    n * n <= usize::MAX,
                    i < n,
                    row == i,
                    rec == &records@[i as int],
                    j <= rec.references@.len(),
                    m == indexmap@,
                    ids_distinct(records@),
                    forall|a: int| 0 <= a < n ==> m.contains_key((#[trigger] records@[a]).id@) && m[records@[a].id@] == a,
                    forall|k: Seq<char>| #[trigger] m.contains_key(k) ==> exists|a: int| 0 <= a < n && records@[a].id@ == k,
                    adj.shape_view() == seq![n, n],
                    adj.cells().len() == n * n,
                    forall|a: int, b: int|
                        0 <= a < n && 0 <= b < n ==> (adj.cells()[#[trigger] (a * n + b)] <==> ((a
                            < i && cited_ids(records@[a]).contains(records@[b].id@)) || (a == i
                            && exists|t: int| 0 <= t < j && #[trigger] rec.references@[t]@ == records@[b].id@))),
                decreases rec.references@.len() - j,
            {
                if let Some(b) = indexmap.get(&rec.references[j]) {
                    let ghost key = rec.references@[j as int]@;
                    assert(m.contains_key(key));
                    let ghost c = choose|c: int| 0 <= c < n && records@[c].id@ == key;
                    assert(m[records@[c].id@] == c);
                    assert(b == c);
                    proof {
                        lemma_square_index(row, b, n);
                    }
                    let ghost before = adj.cells();
                    adj.set(&[row, b], true);
                    assert forall|a: int, bb: int|
                        0 <= a < n && 0 <= bb < n implies (adj.cells()[#[trigger] (a * n + bb)] <==> ((a
                            < i && cited_ids(records@[a]).contains(records@[bb].id@)) || (a == i
                            && exists|t: int| 0 <= t < j + 1 && #[trigger] rec.references@[t]@ == records@[bb].id@))) by {
                        lemma_cell_position(a, bb, i as int, b as int, n as int);
                        lemma_cell_bound(a, bb, n as int);
                        if a == i && bb == b {
                            assert(rec.references@[j as int]@ == records@[bb].id@);
                        } else {
                            if a == i {
                                if exists|t: int| 0 <= t < j + 1 && #[trigger] rec.references@[t]@ == records@[bb].id@ {
                                    let t = choose|t: int| 0 <= t < j + 1 && #[trigger] rec.references@[t]@ == records@[bb].id@;
                                    if t == j {
                                        assert(records@[bb].id@ == records@[c].id@);
                                        assert(bb == c) by {
                                            if bb < c {
                                                assert(records@[bb].id@ != records@[c].id@);
                                            } else if c < bb {
                                                assert(records@[c].id@ != records@[bb].id@);
                                            }
                                        }
                                    }
                                }
                            }
                        }
                    }
                } else {
                    let ghost key = rec.references@[j as int]@;
                    assert forall|a: int, bb: int|
                        0 <= a < n && 0 <= bb < n implies (adj.cells()[#[trigger] (a * n + bb)] <==> ((a
                            < i && cited_ids(records@[a]).contains(records@[bb].id@)) || (a == i
                            && exists|t: int| 0 <= t < j + 1 && #[trigger] rec.references@[t]@ == records@[bb].id@))) by {
                        if a == i {
                            if exists|t: int| 0 <= t < j + 1 && #[trigger] rec.references@[t]@ == records@[bb].id@ {
                                let t = choose|t: int| 0 <= t < j + 1 && #[trigger] rec.references@[t]@ == records@[bb].id@;
                                if t == j {
                                    assert(m.contains_key(records@[bb].id@));
                                }
                            }
                        }
                    }
                }
                j = j + 1;
            }
            assert forall|a: int, b: int|
                0 <= a < n && 0 <= b < n implies (adj.cells()[#[trigger] (a * n + b)] <==> (a < i + 1
                    && cited_ids(records@[a]).contains(records@[b].id@))) by {
                if a == i {
                    if cited_ids(records@[a]).contains(records@[b].id@) {
                        let t = choose|t: int| 0 <= t < rec.references@.len() && #[trigger] rec.references@[t]@ == records@[b].id@;
                    }
                }
            }
            i = i + 1;
        }
        let mut nodes: Vec<Paper> = Vec::new();
        let mut i: usize = 0;
        while i < n
            invariant
                n == records@.len(),
                i <= n,
                nodes@ == records@.take(i as int).map_values(|rec: CSVRecord| paper_of(rec)),
            decreases n - i,
        {
            nodes.push(Paper::from_record(&records[i]));
            assert(nodes@ =~= records@.take(i + 1).map_values(|rec: CSVRecord| paper_of(rec)));
            i = i + 1;
        }
        assert(records@.take(i as int) =~= records@);
        let r = AdjDag { nodes, indexmap, adj };
        assert forall|a: int, b: int|
            0 <= a < n && 0 <= b < n implies (#[trigger] r.cites(a, b) <==> cited_ids(records@[a]).contains(records@[b].id@)) by {
            assert(adj.cells()[a * n + b] == r.cites(a, b));
        }
        r
    }
}

/// The cells of a square matrix lie inside it.
proof fn lemma_cell_bound(a: int, b: int, n: int)
    requires
        0 <= a < n,
        0 <= b < n,
    ensures
        0 <= a * n + b < n * n,
{
    assert(0 <= a * n + b < n * n) by (nonlinear_arith)
        requires
            0 <= a < n,
            0 <= b < n,
    ;
}

/// Distinct cells of a square matrix lie at distinct positions.
proof fn lemma_cell_position(a: int, b: int, i: int, j: int, n: int)
    requires
        0 <= a < n,
        0 <= b < n,
        0 <= i < n,
        0 <= j < n,
    ensures
        (a * n + b == i * n + j) <==> (a == i && b == j),
{
    if a * n + b == i * n + j {
        if a < i {
            assert(a * n + b < i * n + j) by (nonlinear_arith)
                requires
                    a < i,
                    0 <= b < n,
                    0 <= j,
            ;
        } else if i < a {
            assert(i * n + j < a * n + b) by (nonlinear_arith)
                requires
                    i < a,
                    0 <= j < n,
                    0 <= b,
            ;
        }
    }
}

impl<T> Dag<T, usize> for AdjDag<T> {
    open spec fn wf(&self) -> bool {
        self.square()
    }

    open spec fn contains_node(&self, id: usize) -> bool {
        id < self.node_weights().len()
    }

    open spec fn has_edge(&self, from: usize, to: usize) -> bool {
        from < self.node_weights().len() && to < self.node_weights().len() && self.cites(from as int, to as int)
    }

    open spec fn weight(&self, id: usize) -> T {
        self.node_weights()[id as int]
    }

    open spec fn searchable(&self, id: usize) -> bool {
        id < self.node_weights().len()
    }

    /// The nodes that `node` cites, in increasing order.
    open spec fn out_list(&self, node: usize) -> Seq<usize> {
        Seq::new(self.node_weights().len(), |c: int| c as usize).filter(|c: usize| self.has_edge(node, c))
    }

    /// The nodes that cite `node`, in increasing order.
    open spec fn in_list(&self, node: usize) -> Seq<usize> {
        Seq::new(self.node_weights().len(), |c: int| c as usize).filter(|c: usize| self.has_edge(c, node))
    }

    /// Nodes are looked at in order of position.
    open spec fn scanned_before(&self, a: usize, b: usize) -> bool {
        a < b
    }

    /// A row can be read for every node, and for any position of an empty graph.
    open spec fn steppable(&self, id: usize) -> bool {
        id < self.node_weights().len() || self.node_weights().len() == 0
    }

    open spec fn edges_closed(&self) -> bool {
        true
    }

    proof fn lemma_edge_ends(&self, from: usize, to: usize) {
    }

    proof fn lemma_searchable_node(&self, id: usize) {
    }

    open spec fn node_count(&self) -> nat {
        self.node_weights().len()
    }

    open spec fn node_index(&self, id: usize) -> nat {
        id as nat
    }

    proof fn lemma_node_index(&self, a: usize, b: usize) {
    }

    /// The nodes that `node` cites, in increasing order.
    fn neighbors(&self, node: &usize) -> (r: Vec<usize>)
        ensures
            forall|i: int, j: int| 0 <= i < j < r@.len() ==> r@[i] < r@[j],
    {
        let n = self.nodes.len();
        let mut r: Vec<usize> = Vec::new();
        let mut c: usize = 0;
        let ghost all = Seq::new(n as nat, |c: int| c as usize);
        let ghost p = |c: usize| self.has_edge(*node, c);
        assert(all.take(0).filter(p) =~= Seq::<usize>::empty()) by {
            reveal_with_fuel(Seq::filter, 1);
        }
        while c < n
            invariant
                self.wf(),
                self.steppable(*node),
                n == self.node_weights().len(),
                c <= n,
                forall|i: int, j: int| 0 <= i < j < r@.len() ==> r@[i] < r@[j],
                forall|i: int| 0 <= i < r@.len() ==> r@[i] < c,
                forall|m: usize| m < c ==> (r@.contains(m) <==> self.has_edge(*node, m)),
                forall|m: usize| r@.contains(m) ==> m < c,
                all == Seq::new(n as nat, |c: int| c as usize),
                p == (|c: usize| self.has_edge(*node, c)),
                r@ == all.take(c as int).filter(p),
            decreases n - c,
        {
            let ghost old_r = r@;
            if self.edge(*node, c) {
                r.push(c);
            }
            proof {
                lemma_filter_take(all, c as int, p);
                assert(all[c as int] == c);
                assert forall|m: usize| m < c + 1 implies (r@.contains(m) <==> self.has_edge(*node, m)) by {
                    if m < c && old_r.contains(m) {
                        let k = choose|k: int| 0 <= k < old_r.len() && old_r[k] == m;
                        assert(r@[k] == m);
                    }
                    if r@.contains(m) && m < c {
                        let k = choose|k: int| 0 <= k < r@.len() && r@[k] == m;
                        if k < old_r.len() {
                            assert(old_r[k] == m);
                        }
                    }
                    if m == c && self.has_edge(*node, m) {
                        assert(r@[r@.len() - 1] == m);
                    }
                }
                assert forall|m: usize| r@.contains(m) implies m < c + 1 by {
                    let k = choose|k: int| 0 <= k < r@.len() && r@[k] == m;
                    if k < old_r.len() {
                        assert(old_r[k] == m);
                    }
                }
            }
            c = c + 1;
        }
        assert(all.take(n as int) =~= all);
        r
    }

    /// The nodes that cite `node`, in increasing order.
    fn neighbors_back(&self, node: &usize) -> (r: Vec<usize>)
        ensures
            forall|i: int, j: int| 0 <= i < j < r@.len() ==> r@[i] < r@[j],
    {
        let n = self.nodes.len();
        let mut r: Vec<usize> = Vec::new();
        let mut c: usize = 0;
        let ghost all = Seq::new(n as nat, |c: int| c as usize);
        let ghost p = |c: usize| self.has_edge(c, *node);
        assert(all.take(0).filter(p) =~= Seq::<usize>::empty()) by {
            reveal_with_fuel(Seq::filter, 1);
        }
        while c < n
            invariant
                self.wf(),
                self.steppable(*node),
                n == self.node_weights().len(),
                c <= n,
                forall|i: int, j: int| 0 <= i < j < r@.len() ==> r@[i] < r@[j],
                forall|i: int| 0 <= i < r@.len() ==> r@[i] < c,
                forall|m: usize| m < c ==> (r@.contains(m) <==> self.has_edge(m, *node)),
                forall|m: usize| r@.contains(m) ==> m < c,
                all == Seq::new(n as nat, |c: int| c as usize),
                p == (|c: usize| self.has_edge(c, *node)),
                r@ == all.take(c as int).filter(p),
            decreases n - c,
        {
            let ghost old_r = r@;
            if self.edge(c, *node) {
                r.push(c);
            }
            proof {
                lemma_filter_take(all, c as int, p);
                assert(all[c as int] == c);
                assert forall|m: usize| m < c + 1 implies (r@.contains(m) <==> self.has_edge(m, *node)) by {
                    if m < c && old_r.contains(m) {
                        let k = choose|k: int| 0 <= k < old_r.len() && old_r[k] == m;
                        assert(r@[k] == m);
                    }
                    if r@.contains(m) && m < c {
                        let k = choose|k: int| 0 <= k < r@.len() && r@[k] == m;
                        if k < old_r.len() {
                            assert(old_r[k] == m);
                        }
                    }
                    if m == c && self.has_edge(m, *node) {
                        assert(r@[r@.len() - 1] == m);
                    }
                }
                assert forall|m: usize| r@.contains(m) implies m < c + 1 by {
                    let k = choose|k: int| 0 <= k < r@.len() && r@[k] == m;
                    if k < old_r.len() {
                        assert(old_r[k] == m);
                    }
                }
            }
            c = c + 1;
        }
        assert(all.take(n as int) =~= all);
        r
    }

    /// The positions, in increasing order, of the nodes for which `func` holds.
    fn find_nodes<F: Fn(&usize, &T) -> bool>(&self, func: F) -> (r: Vec<usize>)
        ensures
            forall|i: int, j: int| 0 <= i < j < r@.len() ==> r@[i] < r@[j],
    {
        let mut r: Vec<usize> = Vec::new();
        let mut i: usize = 0;
        while i < self.nodes.len()
            invariant
                i <= self.node_weights().len(),
                forall|id: usize, w: T| #[trigger] call_requires(func, (&id, &w)),
                forall|a: int, b: int| 0 <= a < b < r@.len() ==> r@[a] < r@[b],
                forall|a: int| 0 <= a < r@.len() ==> r@[a] < i,
                forall|a: int|
                    0 <= a < r@.len() ==> self.searchable(#[trigger] r@[a]) && call_ensures(
                        func,
                        (&r@[a], &self.weight(r@[a])),
                        true,
                    ),
                forall|id: usize|
                    id < i && !r@.contains(id) ==> call_ensures(
                        func,
                        (&id, &#[trigger] self.weight(id)),
                        false,
                    ),
            decreases self.node_weights().len() - i,
        {
            let ghost old_r = r@;
            let hit = func(&i, &self.nodes[i]);
            if hit {
                r.push(i);
                assert(r@[r@.len() - 1] == i);
            }
            proof {
                assert forall|id: usize|
                    id < i + 1 && !r@.contains(id) implies call_ensures(
                        func,
                        (&id, &#[trigger] self.weight(id)),
                        false,
                    ) by {
                    if old_r.contains(id) {
                        let k = choose|k: int| 0 <= k < old_r.len() && old_r[k] == id;
                        assert(r@[k] == id);
                    }
                }
            }
            i = i + 1;
        }
        proof {
            assert forall|a: int, b: int| 0 <= a < r@.len() && 0 <= b < r@.len() && a != b implies r@[a]
                != r@[b] by {
                if a < b {
                    assert(r@[a] < r@[b]);
                } else {
                    assert(r@[b] < r@[a]);
                }
            }
        }
        r
    }

    /// The first position of a node for which `func` holds.
    fn find_node<F: Fn(&usize, &T) -> bool>(&self, func: F) -> (r: Option<usize>)
        ensures
            match r {
                Some(id) => forall|j: usize|
                    j < id ==> call_ensures(func, (&j, &#[trigger] self.weight(j)), false),
                None => true,
            },
    {
        let mut i: usize = 0;
        while i < self.nodes.len()
            invariant
                i <= self.node_weights().len(),
                forall|id: usize, w: T| #[trigger] call_requires(func, (&id, &w)),
                forall|j: usize| j < i ==> call_ensures(func, (&j, &#[trigger] self.weight(j)), false),
            decreases self.node_weights().len() - i,
        {
            if func(&i, &self.nodes[i]) {
                return Some(i);
            }
            i = i + 1;
        }
        None
    }

    fn get(&self, id: &usize) -> (r: Option<&T>) {
        if *id < self.nodes.len() {
            Some(&self.nodes[*id])
        } else {
            None
        }
    }

    fn index(&self, id: &usize) -> (r: &T) {
        &self.nodes[*id]
    }

    fn same_node(&self, a: &usize, b: &usize) -> (r: bool) {
        *a == *b
    }
}

} // verus!
