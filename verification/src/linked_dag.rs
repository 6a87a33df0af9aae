//! A citation graph held as nodes that link to the nodes they cite and back.
use crate::dag::{
    acyclic, lemma_acyclic_levels_end, lemma_level_walk, lemma_levels_add, lemma_walk_level, level,
    linked, Dag,
};
use crate::id_map::IdMap;
use crate::records::{
    cited_ids, id_positions, kept_positions, last_of_id, lemma_id_positions_bound,
    lemma_id_positions_contains, lemma_id_positions_maps_own,
    lemma_id_positions_last, paper_of, CSVRecord, Paper,
};
use crate::seq_lemmas::lemma_filter_take;
use core::marker::PhantomData;
use vstd::std_specs::cmp::PartialEqSpecImpl;
use vstd::prelude::*;

verus! {

/// A fresh identifier for a graph.
///
/// Trusted: calls `rand::random::<u64>()`, which draws from the thread-local generator; the
/// value depends on chance, so nothing is stated of it.
#[verifier::external_body]
fn random_graph_id() -> u64 {
    rand::random()
}

/// Names a node of one `LinkedDag`: the graph's identifier and the node's position in it.
#[derive(Hash)]
pub struct NodeId<T> {
    graph_id: u64,
    index: usize,
    marker: PhantomData<T>,
}

impl<T> Clone for NodeId<T> {
    fn clone(&self) -> (r: Self)
        ensures
            r == *self,
    {
        NodeId { graph_id: self.graph_id, index: self.index, marker: PhantomData }
    }
}

impl<T> Copy for NodeId<T> {

}

impl<T> PartialEq for NodeId<T> {
    /// Two ids are equal when they name the same position of the same graph.
    fn eq(&self, other: &Self) -> (r: bool) {
        self.graph_id == other.graph_id && self.index == other.index
    }
}

impl<T> PartialEqSpecImpl for NodeId<T> {
    open spec fn obeys_eq_spec() -> bool {
        true
    }

    open spec fn eq_spec(&self, other: &Self) -> bool {
        self.graph() == other.graph() && self.position() == other.position()
    }
}

impl<T> Eq for NodeId<T> {

}

impl<T> NodeId<T> {
    /// The identifier of the graph the node belongs to.
    pub closed spec fn graph(&self) -> u64 {
        self.graph_id
    }

    /// The position of the node in its graph.
    pub closed spec fn position(&self) -> usize {
        self.index
    }

    /// The id of the node at `index` of the graph `graph_id`.
    fn new(graph_id: u64, index: usize) -> (r: Self)
        ensures
            r.graph() == graph_id,
            r.position() == index,
    {
        NodeId { graph_id, index, marker: PhantomData }
    }

    /// The id of the node at `index` of the graph `graph_id`.
    pub closed spec fn spec_at(graph_id: u64, index: usize) -> Self {
        NodeId { graph_id, index, marker: PhantomData }
    }

    /// An id is the one its graph and position give.
    proof fn lemma_spec_at(graph_id: u64, index: usize, id: Self)
        requires
            id.graph() == graph_id,
            id.position() == index,
        ensures
            id == Self::spec_at(graph_id, index),
    {
        Self::lemma_eq(id, Self::spec_at(graph_id, index));
    }

    proof fn lemma_eq(a: Self, b: Self)
        ensures
            (a == b) <==> (a.graph() == b.graph() && a.position() == b.position()),
    {
        if a.graph() == b.graph() && a.position() == b.position() {
            assert(a.marker == b.marker);
        }
    }
}

/// A graph whose nodes each hold their weight, the nodes they cite and the nodes that cite
/// them; the heads are the nodes that nothing cites.
pub struct LinkedDag<T> {
    graph_id: u64,
    values: Vec<T>,
    nexts: Vec<Vec<usize>>,
    prevs: Vec<Vec<usize>>,
    heads: Vec<usize>,
}

impl<T> LinkedDag<T> {
    /// The identifier of this graph.
    pub closed spec fn graph(&self) -> u64 {
        self.graph_id
    }

    /// The number of nodes.
    pub closed spec fn node_count(&self) -> nat {
        self.values@.len()
    }

    /// The weight of the node at `i`.
    pub closed spec fn value(&self, i: usize) -> T {
        self.values@[i as int]
    }

    /// The node at `i` cites the node at `j`.
    pub closed spec fn link(&self, i: usize, j: usize) -> bool {
        self.nexts@[i as int]@.contains(j)
    }

    /// The positions of the nodes that the node at `i` cites, in the order they are kept.
    pub closed spec fn next_list(&self, i: usize) -> Seq<usize> {
        self.nexts@[i as int]@
    }

    /// The positions of the nodes that cite the node at `i`, in the order they are kept.
    pub closed spec fn prev_list(&self, i: usize) -> Seq<usize> {
        self.prevs@[i as int]@
    }

    /// The node at `i` is a head: no node cites it.
    pub closed spec fn is_head(&self, i: usize) -> bool {
        self.heads@.contains(i)
    }

    /// The nodes within `k` steps of a head.
    pub closed spec fn reach_within(&self, k: nat) -> Set<usize>
        decreases k,
    {
        if k == 0 {
            Set::new(|i: usize| i < self.values@.len() && self.is_head(i))
        } else {
            let p = self.reach_within((k - 1) as nat);
            p.union(Set::new(|j: usize| exists|i: usize| #[trigger] p.contains(i) && self.link(i, j)))
        }
    }

    /// The node at `i` can be reached from a head.
    pub closed spec fn reachable(&self, i: usize) -> bool {
        exists|k: nat| #[trigger] self.reach_within(k).contains(i)
    }

    /// The links are consistent: every position names a node, each list holds a node once,
    /// the back links mirror the forward ones, and the heads are the nodes without back links.
    pub closed spec fn well_formed(&self) -> bool {
        let n = self.values@.len();
        &&& self.nexts@.len() == n
        &&& self.prevs@.len() == n
        &&& forall|i: int| 0 <= i < n ==> (#[trigger] self.nexts@[i])@.no_duplicates()
        &&& forall|i: int| 0 <= i < n ==> (#[trigger] self.prevs@[i])@.no_duplicates()
        &&& forall|i: int, k: int|
            0 <= i < n && 0 <= k < self.nexts@[i]@.len() ==> (#[trigger] self.nexts@[i]@[k]) < n
        &&& forall|i: int, k: int|
            0 <= i < n && 0 <= k < self.prevs@[i]@.len() ==> (#[trigger] self.prevs@[i]@[k]) < n
        &&& forall|i: usize, j: usize|
            i < n && j < n ==> (#[trigger] self.nexts@[i as int]@.contains(j)
                <==> #[trigger] self.prevs@[j as int]@.contains(i))
        &&& self.heads@.no_duplicates()
        &&& forall|k: int| 0 <= k < self.heads@.len() ==> (#[trigger] self.heads@[k]) < n
        &&& forall|i: usize| i < n ==> (#[trigger] self.heads@.contains(i) <==> self.prevs@[i as int]@.len() == 0)
    }

    /// A graph without nodes, with a fresh identifier.
    pub fn new() -> (r: Self)
        ensures
            r.well_formed(),
            r.node_count() == 0,
            acyclic(r),
    {
        let r = LinkedDag {
            graph_id: random_graph_id(),
            values: Vec::new(),
            nexts: Vec::new(),
            prevs: Vec::new(),
            heads: Vec::new(),
        };
        proof {
            assert forall|x: NodeId<T>, k: nat| 1 <= k implies !#[trigger] level(r, true, x, k).contains(x) by {
                if level(r, true, x, k).contains(x) {
                    let p = lemma_level_walk(r, true, x, k, x);
                    assert(linked(r, true, p[0], p[1]));
                }
            }
        }
        r
    }
}

impl<T> LinkedDag<T> {
    /// Only nodes are reached from the heads.
    proof fn lemma_reach_in_range(&self, k: nat, i: usize)
        requires
            self.well_formed(),
            self.reach_within(k).contains(i),
        ensures
            i < self.node_count(),
        decreases k,
    {
        if k > 0 {
            let p = self.reach_within((k - 1) as nat);
            if !p.contains(i) {
                let a = choose|a: usize| #[trigger] p.contains(a) && self.link(a, i);
                self.lemma_reach_in_range((k - 1) as nat, a);
                let t = choose|t: int| 0 <= t < self.nexts@[a as int]@.len() && self.nexts@[a as int]@[t] == i;
                assert(self.nexts@[a as int]@[t] < self.values@.len());
            } else {
                self.lemma_reach_in_range((k - 1) as nat, i);
            }
        }
    }

    /// A node that no head reaches is cited by another such node.
    proof fn lemma_unreachable_cited(&self, z: usize) -> (a: usize)
        requires
            self.well_formed(),
            z < self.node_count(),
            !self.reachable(z),
        ensures
            a < self.node_count(),
            self.link(a, z),
            !self.reachable(a),
    {
        if self.is_head(z) {
            assert(self.reach_within(0).contains(z));
            assert(self.reachable(z));
        }
        assert(self.prevs@[z as int]@.len() != 0);
        let a = self.prevs@[z as int]@[0];
        assert(a < self.values@.len());
        assert(self.prevs@[z as int]@.contains(a));
        assert(self.nexts@[a as int]@.contains(z));
        if self.reachable(a) {
            self.lemma_reach_step(a, z);
        }
        a
    }

    /// Below a node that no head reaches lies, for every depth, a node that no head reaches
    /// and that reaches it in that many steps.
    proof fn lemma_unreachable_chain(&self, x: NodeId<T>, m: nat) -> (z: NodeId<T>)
        requires
            self.well_formed(),
            self.contains_node(x),
            !self.reachable(x.position()),
        ensures
            self.contains_node(z),
            !self.reachable(z.position()),
            level(*self, true, z, m).contains(x),
        decreases m,
    {
        if m == 0 {
            assert(level(*self, true, x, 0).contains(x));
            x
        } else {
            let z = self.lemma_unreachable_chain(x, (m - 1) as nat);
            let a = self.lemma_unreachable_cited(z.position());
            let na = NodeId::<T>::spec_at(self.graph(), a);
            assert(na.graph() == self.graph() && na.position() == a);
            assert(linked(*self, true, na, z));
            assert(level(*self, true, na, 0).contains(na));
            assert(level(*self, true, na, 1).contains(z));
            lemma_levels_add(*self, true, na, 1, z, (m - 1) as nat, x);
            assert(1 + (m - 1) as nat == m);
            na
        }
    }

    /// In an acyclic graph every node is reached from a head, so `find_node` and `find_nodes`
    /// consider every node.
    pub proof fn lemma_acyclic_searchable(&self, id: NodeId<T>)
        requires
            self.well_formed(),
            acyclic(*self),
            self.contains_node(id),
        ensures
            self.searchable(id),
    {
        if !self.reachable(id.position()) {
            let z = self.lemma_unreachable_chain(id, self.node_count() + 1);
            lemma_acyclic_levels_end(*self, true, z, self.node_count() + 1);
        }
    }

    /// Adding a node that becomes a head, without changing the links among the old nodes,
    /// keeps every old node reached from a head, one step further at most.
    proof fn lemma_insert_keeps_reach(g: Self, h: Self, k: nat, i: usize)
        requires
            g.well_formed(),
            h.node_count() == g.node_count() + 1,
            g.node_count() <= usize::MAX,
            forall|a: usize, b: usize|
                a < g.node_count() && b < g.node_count() ==> (#[trigger] h.link(a, b) == g.link(a, b)),
            forall|a: usize|
                a < h.node_count() ==> (#[trigger] h.is_head(a) <==> (a == g.node_count() || (g.is_head(a)
                    && !h.link(g.node_count() as usize, a)))),
            g.reach_within(k).contains(i),
        ensures
            h.reach_within(k + 1).contains(i),
        decreases k,
    {
        let n = g.node_count() as usize;
        g.lemma_reach_in_range(k, i);
        if k == 0 {
            if h.is_head(i) {
                assert(h.reach_within(0).contains(i));
            } else {
                assert(h.is_head(n));
                assert(h.reach_within(0).contains(n));
                assert(h.link(n, i));
            }
            assert(h.reach_within(1).contains(i));
        } else {
            let p = g.reach_within((k - 1) as nat);
            if p.contains(i) {
                Self::lemma_insert_keeps_reach(g, h, (k - 1) as nat, i);
            } else {
                let a = choose|a: usize| #[trigger] p.contains(a) && g.link(a, i);
                Self::lemma_insert_keeps_reach(g, h, (k - 1) as nat, a);
                g.lemma_reach_in_range((k - 1) as nat, a);
                assert(h.link(a, i));
                assert(h.reach_within(k).contains(a));
            }
            assert(h.reach_within(k + 1).contains(i));
        }
    }
}

/// The number of unset flags.
spec fn unset_count(s: Seq<bool>) -> nat
    decreases s.len(),
{
    if s.len() == 0 {
        0
    } else {
        unset_count(s.drop_last()) + if s.last() {
            0nat
        } else {
            1nat
        }
    }
}

/// Setting an unset flag lowers the count of unset flags by one.
proof fn lemma_unset_count_set(s: Seq<bool>, i: int)
    requires
        0 <= i < s.len(),
        !s[i],
    ensures
        unset_count(s.update(i, true)) + 1 == unset_count(s),
    decreases s.len(),
{
    let t = s.update(i, true);
    if i < s.len() - 1 {
        assert(t.drop_last() =~= s.drop_last().update(i, true));
        lemma_unset_count_set(s.drop_last(), i);
    } else {
        assert(t.drop_last() =~= s.drop_last());
    }
}

/// No more flags are unset than there are flags.
proof fn lemma_unset_count_bound(s: Seq<bool>)
    ensures
        unset_count(s) <= s.len(),
    decreases s.len(),
{
    if s.len() > 0 {
        lemma_unset_count_bound(s.drop_last());
    }
}

/// All flags of a fresh list are unset.
proof fn lemma_unset_count_all(s: Seq<bool>)
    requires
        forall|i: int| 0 <= i < s.len() ==> !s[i],
    ensures
        unset_count(s) == s.len(),
    decreases s.len(),
{
    if s.len() > 0 {
        lemma_unset_count_all(s.drop_last());
    }
}

impl<T> LinkedDag<T> {
    /// A link from a reachable node leads to a reachable node.
    proof fn lemma_reach_step(&self, i: usize, j: usize)
        requires
            self.reachable(i),
            self.link(i, j),
        ensures
            self.reachable(j),
    {
        let k = choose|k: nat| #[trigger] self.reach_within(k).contains(i);
        assert(self.reach_within(k + 1).contains(j));
    }

    /// Heads are reachable.
    proof fn lemma_head_reachable(&self, i: usize)
        requires
            i < self.values@.len(),
            self.is_head(i),
        ensures
            self.reachable(i),
    {
        assert(self.reach_within(0).contains(i));
    }

    /// A set of positions that holds the heads and every node linked from one of its
    /// members holds every reachable node.
    proof fn lemma_closed_holds_reachable(&self, s: Set<usize>, i: usize)
        requires
            forall|h: usize| h < self.values@.len() && #[trigger] self.is_head(h) ==> s.contains(h),
            forall|a: usize, b: usize| s.contains(a) && #[trigger] self.link(a, b) ==> s.contains(b),
            self.reachable(i),
        ensures
            s.contains(i),
    {
        let k = choose|k: nat| #[trigger] self.reach_within(k).contains(i);
        self.lemma_reach_within_in(s, k);
    }

    proof fn lemma_reach_within_in(&self, s: Set<usize>, k: nat)
        requires
            forall|h: usize| h < self.values@.len() && #[trigger] self.is_head(h) ==> s.contains(h),
            forall|a: usize, b: usize| s.contains(a) && #[trigger] self.link(a, b) ==> s.contains(b),
        ensures
            self.reach_within(k).subset_of(s),
        decreases k,
    {
        if k > 0 {
            self.lemma_reach_within_in(s, (k - 1) as nat);
            let p = self.reach_within((k - 1) as nat);
            assert forall|j: usize| self.reach_within(k).contains(j) implies s.contains(j) by {
                if !p.contains(j) {
                    let i = choose|i: usize| #[trigger] p.contains(i) && self.link(i, j);
                    assert(s.contains(i));
                }
            }
        }
    }

    /// The search queue: positions without repeats, each flagged, each reachable, and the
    /// flags that are unset are the positions not yet queued.
    spec fn queue_ok(&self, marked: Seq<bool>, queue: Seq<usize>) -> bool {
        let n = self.values@.len();
        &&& marked.len() == n
        &&& queue.no_duplicates()
        &&& forall|t: int| 0 <= t < queue.len() ==> (#[trigger] queue[t]) < n
        &&& forall|t: usize| t < n ==> (#[trigger] marked[t as int] <==> queue.contains(t))
        &&& forall|t: int| 0 <= t < queue.len() ==> self.reachable(#[trigger] queue[t])
        &&& queue.len() + unset_count(marked) == n
    }

    /// Queues the reachable node `y` unless it is queued already.
    fn enqueue(&self, marked: &mut Vec<bool>, queue: &mut Vec<usize>, y: usize)
        requires
            self.queue_ok(old(marked)@, old(queue)@),
            y < self.values@.len(),
            self.reachable(y),
        ensures
            self.queue_ok(final(marked)@, final(queue)@),
            final(queue)@ == if old(marked)@[y as int] {
                old(queue)@
            } else {
                old(queue)@.push(y)
            },
            final(queue)@.contains(y),
    {
        let ghost old_queue = queue@;
        if !marked[y] {
            proof {
                lemma_unset_count_set(marked@, y as int);
                assert(!old_queue.contains(y));
            }
            marked.set(y, true);
            queue.push(y);
            proof {
                let n = self.values@.len();
                assert(queue@[queue@.len() - 1] == y);
                assert forall|t: usize| t < n implies (#[trigger] marked@[t as int] <==> queue@.contains(t)) by {
                    if queue@.contains(t) && t != y {
                        let q = choose|q: int| 0 <= q < queue@.len() && queue@[q] == t;
                        assert(old_queue[q] == t);
                    }
                    if t != y && marked@[t as int] {
                        assert(old_queue.contains(t));
                        let q = choose|q: int| 0 <= q < old_queue.len() && old_queue[q] == t;
                        assert(queue@[q] == t);
                    }
                }
                assert forall|a: int, b: int| 0 <= a < queue@.len() && 0 <= b < queue@.len() && a != b implies queue@[a] != queue@[b] by {
                    if a < old_queue.len() && b < old_queue.len() {
                        assert(old_queue[a] != old_queue[b]);
                    } else if a < old_queue.len() {
                        assert(old_queue.contains(queue@[a]));
                    } else {
                        assert(old_queue.contains(queue@[b]));
                    }
                }
                assert forall|t: int| 0 <= t < queue@.len() implies self.reachable(#[trigger] queue@[t]) by {
                    if t < old_queue.len() {
                        assert(old_queue[t] == queue@[t]);
                    }
                }
                assert forall|t: int| 0 <= t < queue@.len() implies (#[trigger] queue@[t]) < n by {
                    if t < old_queue.len() {
                        assert(old_queue[t] == queue@[t]);
                    }
                }
            }
        }
    }

    /// Visits the nodes reachable from the heads, breadth first, and keeps those for which
    /// `func` holds; with `first_only`, stops at the first one.
    fn search_nodes<F: Fn(&NodeId<T>, &T) -> bool>(&self, func: F, first_only: bool) -> (r: Vec<
        NodeId<T>,
    >)
        requires
            self.well_formed(),
            forall|id: NodeId<T>, w: T| #[trigger] call_requires(func, (&id, &w)),
        ensures
            r@.no_duplicates(),
            first_only ==> r@.len() <= 1,
            forall|k: int|
                0 <= k < r@.len() ==> self.searchable(#[trigger] r@[k]) && call_ensures(
                    func,
                    (&r@[k], &self.weight(r@[k])),
                    true,
                ),
            (!first_only || r@.len() == 0) ==> forall|id: NodeId<T>|
                self.searchable(id) && !r@.contains(id) ==> call_ensures(
                    func,
                    (&id, &#[trigger] self.weight(id)),
                    false,
                ),
    {
        let n = self.values.len();
        let mut marked: Vec<bool> = Vec::new();
        let mut i: usize = 0;
        while i < n
            invariant
                i <= n,
                marked@.len() == i,
                forall|t: int| 0 <= t < i ==> !marked@[t],
            decreases n - i,
        {
            marked.push(false);
            i = i + 1;
        }
        proof {
            lemma_unset_count_all(marked@);
        }
        let mut queue: Vec<usize> = Vec::new();
        let mut h: usize = 0;
        while h < self.heads.len()
            invariant
                self.well_formed(),
                n == self.values@.len(),
                h <= self.heads@.len(),
                self.queue_ok(marked@, queue@),
                forall|t: int| 0 <= t < h ==> queue@.contains(#[trigger] self.heads@[t]),
            decreases self.heads@.len() - h,
        {
            let x = self.heads[h];
            let ghost old_queue = queue@;
            proof {
                assert(self.heads@.contains(x));
                self.lemma_head_reachable(x);
            }
            self.enqueue(&mut marked, &mut queue, x);
            proof {
                assert forall|t: int| 0 <= t < h + 1 implies queue@.contains(#[trigger] self.heads@[t]) by {
                    if t < h {
                        let q = choose|q: int| 0 <= q < old_queue.len() && old_queue[q] == self.heads@[t];
                        assert(queue@[q] == self.heads@[t]);
                    }
                }
            }
            h = h + 1;
        }
        let mut found: Vec<NodeId<T>> = Vec::new();
        let mut done: usize = 0;
        proof {
            lemma_unset_count_bound(marked@);
        }
        while done < queue.len()
            invariant
                self.well_formed(),
                n == self.values@.len(),
                forall|id: NodeId<T>, w: T| #[trigger] call_requires(func, (&id, &w)),
                done <= queue@.len(),
                self.queue_ok(marked@, queue@),
                forall|t: int| 0 <= t < self.heads@.len() ==> queue@.contains(#[trigger] self.heads@[t]),
                forall|q: int, b: usize|
                    0 <= q < done && #[trigger] self.link(queue@[q], b) ==> queue@.contains(b),
                found@.no_duplicates(),
                first_only ==> found@.len() == 0,
                forall|k: int|
                    0 <= k < found@.len() ==> self.searchable(#[trigger] found@[k]) && call_ensures(
                        func,
                        (&found@[k], &self.weight(found@[k])),
                        true,
                    ),
                forall|k: int| 0 <= k < found@.len() ==> (#[trigger] found@[k]).graph() == self.graph(),
                forall|k: int| 0 <= k < found@.len() ==> queue@.take(done as int).contains((#[trigger] found@[k]).position()),
                forall|q: int|
                    0 <= q < done && !found@.contains(NodeId::<T>::spec_at(self.graph(), #[trigger] queue@[q])) ==> call_ensures(
                        func,
                        (&NodeId::<T>::spec_at(self.graph(), queue@[q]), &self.value(queue@[q])),
                        false,
                    ),
            decreases n - done,
        {
            proof {
                lemma_unset_count_bound(marked@);
            }
            let x = queue[done];
            let id = NodeId::new(self.graph_id, x);
            proof {
                NodeId::<T>::lemma_spec_at(self.graph(), x, id);
                assert(self.reachable(queue@[done as int]));
            }
            let hit = func(&id, &self.values[x]);
            let ghost old_found = found@;
            let ghost old_queue = queue@;
            if hit {
                proof {
                    assert(!found@.contains(id)) by {
                        if found@.contains(id) {
                            let k = choose|k: int| 0 <= k < found@.len() && found@[k] == id;
                            assert(queue@.take(done as int).contains(x));
                            let q = choose|q: int| 0 <= q < done && queue@.take(done as int)[q] == x;
                            assert(queue@[q] == queue@[done as int]);
                        }
                    }
                }
                found.push(id);
                proof {
                    assert(found@[found@.len() - 1] == id);
                    assert forall|a: int, b: int| 0 <= a < found@.len() && 0 <= b < found@.len() && a != b implies found@[a] != found@[b] by {
                        if a < old_found.len() && b < old_found.len() {
                            assert(old_found[a] != old_found[b]);
                        } else if a < old_found.len() {
                            assert(old_found.contains(found@[a]));
                        } else {
                            assert(old_found.contains(found@[b]));
                        }
                    }
                }
                if first_only {
                    return found;
                }
            }
            let row = &self.nexts[x];
            let mut k: usize = 0;
            while k < row.len()
                invariant
                    self.well_formed(),
                    n == self.values@.len(),
                    x < n,
                    self.reachable(x),
                    row == &self.nexts@[x as int],
                    k <= row@.len(),
                    self.queue_ok(marked@, queue@),
                    old_queue.is_prefix_of(queue@),
                    forall|t: int| 0 <= t < k ==> queue@.contains(#[trigger] row@[t]),
                decreases row@.len() - k,
            {
                let y = row[k];
                proof {
                    assert(row@.contains(y));
                    assert(self.link(x, y));
                    self.lemma_reach_step(x, y);
                }
                let ghost before = queue@;
                self.enqueue(&mut marked, &mut queue, y);
                proof {
                    assert forall|t: int| 0 <= t < k + 1 implies queue@.contains(#[trigger] row@[t]) by {
                        if t < k {
                            let p = choose|p: int| 0 <= p < before.len() && before[p] == row@[t];
                            assert(queue@[p] == row@[t]);
                        }
                    }
                }
                k = k + 1;
            }
            proof {
                assert forall|t: int| 0 <= t < self.heads@.len() implies queue@.contains(#[trigger] self.heads@[t]) by {
                    let q = choose|q: int| 0 <= q < old_queue.len() && old_queue[q] == self.heads@[t];
                    assert(queue@[q] == self.heads@[t]);
                }
                assert forall|q: int, b: usize|
                    0 <= q < done + 1 && #[trigger] self.link(queue@[q], b) implies queue@.contains(b) by {
                    assert(queue@[q] == old_queue[q]);
                    if q == done {
                        let t = choose|t: int| 0 <= t < row@.len() && row@[t] == b;
                        assert(queue@.contains(row@[t]));
                    } else {
                        let p = choose|p: int| 0 <= p < old_queue.len() && old_queue[p] == b;
                        assert(queue@[p] == b);
                    }
                }
                assert(queue@.take(done + 1) =~= old_queue.take(done as int).push(x));
                assert forall|kk: int| 0 <= kk < found@.len() implies queue@.take(done + 1).contains((#[trigger] found@[kk]).position()) by {
                    if kk < old_found.len() {
                        assert(found@[kk] == old_found[kk]);
                        let q = choose|q: int| 0 <= q < done && old_queue.take(done as int)[q] == old_found[kk].position();
                        assert(queue@.take(done + 1)[q] == old_found[kk].position());
                    } else {
                        assert(found@[kk] == id);
                        assert(queue@.take(done + 1)[done as int] == x);
                    }
                }
                assert forall|q: int|
                    0 <= q < done + 1 && !found@.contains(NodeId::<T>::spec_at(self.graph(), #[trigger] queue@[q])) implies call_ensures(
                        func,
                        (&NodeId::<T>::spec_at(self.graph(), queue@[q]), &self.value(queue@[q])),
                        false,
                    ) by {
                    assert(queue@[q] == old_queue[q]);
                    if q == done {
                        if hit {
                            assert(found@[found@.len() - 1] == id);
                        }
                    } else if hit {
                        let z = NodeId::<T>::spec_at(self.graph(), queue@[q]);
                        if old_found.contains(z) {
                            let kk = choose|kk: int| 0 <= kk < old_found.len() && old_found[kk] == z;
                            assert(found@[kk] == z);
                        }
                    }
                }
            }
            done = done + 1;
        }
        proof {
            let s = Set::new(|i: usize| queue@.contains(i));
            assert forall|hh: usize| hh < self.values@.len() && #[trigger] self.is_head(hh) implies s.contains(hh) by {
                let t = choose|t: int| 0 <= t < self.heads@.len() && self.heads@[t] == hh;
                assert(queue@.contains(self.heads@[t]));
            }
            assert forall|a: usize, b: usize| s.contains(a) && #[trigger] self.link(a, b) implies s.contains(b) by {
                let q = choose|q: int| 0 <= q < queue@.len() && queue@[q] == a;
                assert(self.link(queue@[q], b));
            }
            assert forall|id: NodeId<T>|
                self.searchable(id) && !found@.contains(id) implies call_ensures(
                    func,
                    (&id, &#[trigger] self.weight(id)),
                    false,
                ) by {
                self.lemma_closed_holds_reachable(s, id.position());
                let q = choose|q: int| 0 <= q < queue@.len() && queue@[q] == id.position();
                NodeId::<T>::lemma_spec_at(self.graph(), id.position(), id);
                assert(NodeId::<T>::spec_at(self.graph(), queue@[q]) == id);
            }
        }
        found
    }
}

/// What a sequence holds after one more element.
proof fn lemma_push_contains(s: Seq<usize>, x: usize)
    ensures
        forall|y: usize| #[trigger] s.push(x).contains(y) <==> (s.contains(y) || y == x),
        s.no_duplicates() && !s.contains(x) ==> s.push(x).no_duplicates(),
{
    assert forall|y: usize| #[trigger] s.push(x).contains(y) <==> (s.contains(y) || y == x) by {
        if s.push(x).contains(y) {
            let q = choose|q: int| 0 <= q < s.push(x).len() && s.push(x)[q] == y;
            if q < s.len() {
                assert(s[q] == y);
            }
        }
        if s.contains(y) {
            let q = choose|q: int| 0 <= q < s.len() && s[q] == y;
            assert(s.push(x)[q] == y);
        }
        if y == x {
            assert(s.push(x)[s.len() as int] == x);
        }
    }
    if s.no_duplicates() && !s.contains(x) {
        assert forall|a: int, b: int| 0 <= a < s.push(x).len() && 0 <= b < s.push(x).len() && a != b implies s.push(x)[a] != s.push(x)[b] by {
            if a < s.len() && b < s.len() {
                assert(s[a] != s[b]);
            } else if a < s.len() {
                assert(s.contains(s[a]));
            } else {
                assert(s.contains(s[b]));
            }
        }
    }
}

/// What a sequence without repeats holds after an element is removed.
proof fn lemma_remove_contains(s: Seq<usize>, p: int)
    requires
        s.no_duplicates(),
        0 <= p < s.len(),
    ensures
        forall|y: usize| #[trigger] s.remove(p).contains(y) <==> (s.contains(y) && y != s[p]),
        s.remove(p).no_duplicates(),
{
    let r = s.remove(p);
    assert forall|y: usize| #[trigger] r.contains(y) <==> (s.contains(y) && y != s[p]) by {
        if r.contains(y) {
            let q = choose|q: int| 0 <= q < r.len() && r[q] == y;
            if q < p {
                assert(s[q] == y);
                assert(q != p);
            } else {
                assert(s[q + 1] == y);
                assert(q + 1 != p);
            }
        }
        if s.contains(y) && y != s[p] {
            let q = choose|q: int| 0 <= q < s.len() && s[q] == y;
            if q < p {
                assert(r[q] == y);
            } else {
                assert(q != p);
                assert(r[q - 1] == y);
            }
        }
    }
    assert forall|a: int, b: int| 0 <= a < r.len() && 0 <= b < r.len() && a != b implies r[a] != r[b] by {
        let a2 = if a < p { a } else { a + 1 };
        let b2 = if b < p { b } else { b + 1 };
        assert(r[a] == s[a2] && r[b] == s[b2]);
    }
}

/// Where `x` occurs in `v`, if it does.
fn position_in(v: &Vec<usize>, x: usize) -> (r: Option<usize>)
    ensures
        match r {
            Some(p) => p < v@.len() && v@[p as int] == x,
            None => !v@.contains(x),
        },
{
    let mut i: usize = 0;
    while i < v.len()
        invariant
            i <= v@.len(),
            forall|j: int| 0 <= j < i ==> v@[j] != x,
        decreases v@.len() - i,
    {
        if v[i] == x {
            return Some(i);
        }
        i = i + 1;
    }
    None
}

impl<T> LinkedDag<T> {
    /// Inserts a node with weight `weight` that cites the nodes `nexts`, ignoring the ids that
    /// name no node of this graph, and returns its id. The new node becomes a head, and the
    /// nodes it cites stop being heads.
    pub fn insert_node_lossy(&mut self, weight: T, nexts: &[NodeId<T>]) -> (r: NodeId<T>)
        requires
            old(self).well_formed(),
            old(self).node_count() < usize::MAX,
        ensures
            final(self).well_formed(),
            final(self).graph() == old(self).graph(),
            final(self).node_count() == old(self).node_count() + 1,
            r.graph() == old(self).graph(),
            r.position() == old(self).node_count(),
            final(self).value(r.position()) == weight,
            forall|i: usize| i < old(self).node_count() ==> #[trigger] final(self).value(i) == old(self).value(i),
            forall|i: usize, j: usize|
                i < old(self).node_count() && j < old(self).node_count() ==> (#[trigger] final(self).link(i, j)
                    == old(self).link(i, j)),
            forall|j: usize|
                #[trigger] final(self).link(r.position(), j) <==> (j < old(self).node_count()
                    && exists|k: int|
                    0 <= k < nexts@.len() && (#[trigger] nexts@[k]).graph() == old(self).graph()
                        && nexts@[k].position() == j),
            forall|i: usize| i < final(self).node_count() ==> !#[trigger] final(self).link(i, r.position()),
            forall|i: usize|
                i < final(self).node_count() ==> (#[trigger] final(self).is_head(i) <==> (i == r.position()
                    || (old(self).is_head(i) && !final(self).link(r.position(), i)))),
            acyclic(*old(self)) ==> acyclic(*final(self)),
            forall|id: NodeId<T>| #[trigger] old(self).searchable(id) ==> final(self).searchable(id),
            final(self).searchable(r),
            forall|x: NodeId<T>, y: NodeId<T>|
                old(self).contains_node(x) && old(self).contains_node(y) ==> (#[trigger] final(self).has_edge(
                    x,
                    y,
                ) == old(self).has_edge(x, y)),
            forall|x: NodeId<T>| !#[trigger] final(self).has_edge(x, r),
            forall|y: NodeId<T>|
                #[trigger] final(self).has_edge(r, y) <==> (old(self).contains_node(y) && exists|k: int|
                    0 <= k < nexts@.len() && (#[trigger] nexts@[k]).graph() == old(self).graph()
                        && nexts@[k].position() == y.position()),
    {
        let n = self.values.len();
        let mut targets: Vec<usize> = Vec::new();
        let mut k: usize = 0;
        while k < nexts.len()
            invariant
                n == self.values@.len(),
                k <= nexts@.len(),
                targets@.no_duplicates(),
                forall|t: int| 0 <= t < targets@.len() ==> (#[trigger] targets@[t]) < n,
                forall|j: usize|
                    #[trigger] targets@.contains(j) <==> (j < n && exists|q: int|
                        0 <= q < k && (#[trigger] nexts@[q]).graph() == self.graph() && nexts@[q].position() == j),
            decreases nexts@.len() - k,
        {
            let id = nexts[k];
            let ghost old_targets = targets@;
            if id.graph_id == self.graph_id && id.index < n && position_in(&targets, id.index).is_none() {
                targets.push(id.index);
                proof {
                    assert(targets@[targets@.len() - 1] == id.index);
                    assert forall|a: int, b: int| 0 <= a < targets@.len() && 0 <= b < targets@.len() && a != b implies targets@[a] != targets@[b] by {
                        if a < old_targets.len() && b < old_targets.len() {
                            assert(old_targets[a] != old_targets[b]);
                        } else if a < old_targets.len() {
                            assert(old_targets.contains(targets@[a]));
                        } else {
                            assert(old_targets.contains(targets@[b]));
                        }
                    }
                }
            }
            proof {
                assert forall|j: usize|
                    #[trigger] targets@.contains(j) <==> (j < n && exists|q: int|
                        0 <= q < k + 1 && (#[trigger] nexts@[q]).graph() == self.graph() && nexts@[q].position() == j) by {
                    if targets@.contains(j) && !old_targets.contains(j) {
                        assert(j == id.index);
                        assert(nexts@[k as int] == id);
                    }
                    if old_targets.contains(j) {
                        let p = choose|p: int| 0 <= p < old_targets.len() && old_targets[p] == j;
                        assert(targets@[p] == j);
                    }
                    if j < n && exists|q: int| 0 <= q < k + 1 && (#[trigger] nexts@[q]).graph() == self.graph() && nexts@[q].position() == j {
                        let q = choose|q: int| 0 <= q < k + 1 && (#[trigger] nexts@[q]).graph() == self.graph() && nexts@[q].position() == j;
                        if q == k {
                            if !old_targets.contains(j) {
                                assert(targets@[targets@.len() - 1] == j);
                            }
                        }
                    }
                }
            }
            k = k + 1;
        }
        let ghost old_self = *self;
        self.values.push(weight);
        self.prevs.push(Vec::new());
        proof {
            lemma_push_contains(self.heads@, n);
        }
        self.heads.push(n);
        let mut t: usize = 0;
        while t < targets.len()
            invariant
                n == old_self.values@.len(),
                self.graph_id == old_self.graph_id,
                self.values@ == old_self.values@.push(weight),
                self.nexts@ == old_self.nexts@,
                self.prevs@.len() == n + 1,
                self.prevs@[n as int]@.len() == 0,
                t <= targets@.len(),
                targets@.no_duplicates(),
                forall|q: int| 0 <= q < targets@.len() ==> (#[trigger] targets@[q]) < n,
                forall|i: int| 0 <= i < n ==> (#[trigger] self.prevs@[i])@ == if targets@.take(t as int).contains(i as usize) {
                    old_self.prevs@[i]@.push(n)
                } else {
                    old_self.prevs@[i]@
                },
                self.heads@.no_duplicates(),
                forall|q: int| 0 <= q < self.heads@.len() ==> (#[trigger] self.heads@[q]) <= n,
                forall|i: usize| i <= n ==> (#[trigger] self.heads@.contains(i) <==> (i == n || (old_self.heads@.contains(i) && !targets@.take(t as int).contains(i)))),
            decreases targets@.len() - t,
        {
            let j = targets[t];
            let mut row = self.prevs[j].clone();
            row.push(n);
            self.prevs.set(j, row);
            let ghost old_heads = self.heads@;
            match position_in(&self.heads, j) {
                Some(p) => {
                    proof {
                        lemma_remove_contains(self.heads@, p as int);
                    }
                    self.heads.remove(p);
                },
                None => {},
            }
            let ghost pre = targets@.take(t as int);
            let ghost post = targets@.take(t + 1);
            proof {
                assert(post =~= pre.push(j));
                assert forall|i: int| 0 <= i < n implies (#[trigger] self.prevs@[i])@ == if post.contains(i as usize) {
                    old_self.prevs@[i]@.push(n)
                } else {
                    old_self.prevs@[i]@
                } by {
                    if i == j {
                        assert(!pre.contains(j)) by {
                            if pre.contains(j) {
                                let q = choose|q: int| 0 <= q < t && pre[q] == j;
                                assert(targets@[q] == targets@[t as int]);
                            }
                        }
                        assert(post.contains(j)) by {
                            assert(post[t as int] == j);
                        }
                    } else {
                        assert(post.contains(i as usize) == pre.contains(i as usize)) by {
                            if post.contains(i as usize) {
                                let q = choose|q: int| 0 <= q < t + 1 && post[q] == i as usize;
                                assert(pre[q] == i as usize);
                            }
                            if pre.contains(i as usize) {
                                let q = choose|q: int| 0 <= q < t && pre[q] == i as usize;
                                assert(post[q] == i as usize);
                            }
                        }
                    }
                }
                assert forall|i: usize| i <= n implies (#[trigger] self.heads@.contains(i) <==> (i == n || (old_self.heads@.contains(i) && !post.contains(i)))) by {
                    assert(post.contains(i) == (pre.contains(i) || i == j)) by {
                        if post.contains(i) {
                            let q = choose|q: int| 0 <= q < t + 1 && post[q] == i;
                            if q < t {
                                assert(pre[q] == i);
                            }
                        }
                        if pre.contains(i) {
                            let q = choose|q: int| 0 <= q < t && pre[q] == i;
                            assert(post[q] == i);
                        }
                        if i == j {
                            assert(post[t as int] == i);
                        }
                    }
                    if !old_heads.contains(j) {
                        assert(self.heads@ == old_heads);
                    }
                }
            }
            t = t + 1;
        }
        assert(targets@.take(t as int) =~= targets@);
        self.nexts.push(targets);
        proof {
            let m = n + 1;
            assert forall|i: int| 0 <= i < m implies (#[trigger] self.nexts@[i])@.no_duplicates() by {
                if i < n {
                    assert(self.nexts@[i] == old_self.nexts@[i]);
                }
            }
            assert forall|i: int| 0 <= i < m implies (#[trigger] self.prevs@[i])@.no_duplicates() by {
                if i < n && targets@.contains(i as usize) {
                    assert(!old_self.prevs@[i]@.contains(n)) by {
                        if old_self.prevs@[i]@.contains(n) {
                            let q = choose|q: int| 0 <= q < old_self.prevs@[i]@.len() && old_self.prevs@[i]@[q] == n;
                            assert(old_self.prevs@[i]@[q] < n);
                        }
                    }
                    lemma_push_contains(old_self.prevs@[i]@, n);
                }
            }
            assert forall|i: int, q: int|
                0 <= i < m && 0 <= q < self.nexts@[i]@.len() implies (#[trigger] self.nexts@[i]@[q]) < m by {
                if i < n {
                    assert(self.nexts@[i] == old_self.nexts@[i]);
                }
            }
            assert forall|i: int, q: int|
                0 <= i < m && 0 <= q < self.prevs@[i]@.len() implies (#[trigger] self.prevs@[i]@[q]) < m by {
                if i < n && targets@.contains(i as usize) {
                    if q < old_self.prevs@[i]@.len() {
                        assert(self.prevs@[i]@[q] == old_self.prevs@[i]@[q]);
                    }
                } else if i < n {
                    assert(self.prevs@[i]@[q] == old_self.prevs@[i]@[q]);
                }
            }
            assert forall|i: usize, j: usize|
                i < m && j < m implies (#[trigger] self.nexts@[i as int]@.contains(j)
                    <==> #[trigger] self.prevs@[j as int]@.contains(i)) by {
                if j < n {
                    lemma_push_contains(old_self.prevs@[j as int]@, n);
                }
                if i < n && j < n {
                    assert(self.nexts@[i as int] == old_self.nexts@[i as int]);
                    assert(old_self.nexts@[i as int]@.contains(j) <==> old_self.prevs@[j as int]@.contains(i));
                } else if i < n && j == n {
                    assert(self.nexts@[i as int] == old_self.nexts@[i as int]);
                    if self.nexts@[i as int]@.contains(j) {
                        let q = choose|q: int| 0 <= q < old_self.nexts@[i as int]@.len() && old_self.nexts@[i as int]@[q] == j;
                        assert(old_self.nexts@[i as int]@[q] < n);
                    }
                } else if i == n && j == n {
                    if targets@.contains(j) {
                        let q = choose|q: int| 0 <= q < targets@.len() && targets@[q] == j;
                        assert(targets@[q] < n);
                    }
                } else {
                    if old_self.prevs@[j as int]@.contains(i) {
                        let q = choose|q: int| 0 <= q < old_self.prevs@[j as int]@.len() && old_self.prevs@[j as int]@[q] == i;
                        assert(old_self.prevs@[j as int]@[q] < n);
                    }
                }
            }
            assert forall|i: usize| i < m implies (#[trigger] self.heads@.contains(i) <==> self.prevs@[i as int]@.len() == 0) by {
                if i < n {
                    assert(old_self.heads@.contains(i) <==> old_self.prevs@[i as int]@.len() == 0);
                }
            }
            assert(self.well_formed());
            assert forall|i: usize|
                i < self.values@.len() implies (#[trigger] self.is_head(i) <==> (i == n
                    || (old_self.is_head(i) && !self.link(n, i)))) by {
            }
        }
        let r = NodeId::new(self.graph_id, n);
        proof {
            if acyclic(old_self) {
                assert forall|i: usize, j: usize|
                    i < self.node_count() && j < self.node_count() && #[trigger] self.link(i, j) implies j
                    < old_self.node_count() by {
                    if j == n {
                        assert(!self.link(i, n));
                    }
                }
                Self::lemma_new_source_keeps_acyclic(old_self, *self);
            }
            assert(self.is_head(n));
            assert(self.reach_within(0).contains(n));
            assert forall|id: NodeId<T>| #[trigger] old_self.searchable(id) implies self.searchable(id) by {
                let k = choose|k: nat| #[trigger] old_self.reach_within(k).contains(id.position());
                Self::lemma_insert_keeps_reach(old_self, *self, k, id.position());
            }
        }
        r
    }

    /// A graph that adds to an acyclic graph one node that nothing cites, without changing
    /// the links among the old nodes, is acyclic.
    proof fn lemma_new_source_keeps_acyclic(g: Self, h: Self)
        requires
            acyclic(g),
            h.graph() == g.graph(),
            h.node_count() == g.node_count() + 1,
            forall|i: usize, j: usize|
                i < g.node_count() && j < g.node_count() ==> (#[trigger] h.link(i, j) == g.link(i, j)),
            forall|i: usize, j: usize|
                i < h.node_count() && j < h.node_count() && #[trigger] h.link(i, j) ==> j < g.node_count(),
        ensures
            acyclic(h),
    {
        assert forall|x: NodeId<T>, k: nat| 1 <= k implies !#[trigger] level(h, true, x, k).contains(x) by {
            if level(h, true, x, k).contains(x) {
                let p = lemma_level_walk(h, true, x, k, x);
                assert forall|i: int| 0 <= i <= k implies g.contains_node(#[trigger] p[i]) by {
                    let t = if i == 0 {
                        k - 1
                    } else {
                        i - 1
                    };
                    assert(linked(h, true, p[t], p[t + 1]));
                    assert(p[t + 1] == p[i]);
                    assert(h.contains_node(p[i]) && h.link(p[t].position(), p[i].position()));
                }
                assert forall|i: int| 0 <= i < p.len() - 1 implies #[trigger] linked(g, true, p[i], p[i + 1]) by {
                    assert(linked(h, true, p[i], p[i + 1]));
                    assert(g.contains_node(p[i]) && g.contains_node(p[i + 1]));
                }
                lemma_walk_level(g, true, p, 0, k as int);
            }
        }
    }
}

impl<T> LinkedDag<T> {
    /// The weight of the node `id`, to change it, if `id` names a node of this graph.
    pub fn get_mut(&mut self, id: &NodeId<T>) -> (r: Option<&mut T>)
        ensures
            final(self).graph() == old(self).graph(),
            final(self).node_count() == old(self).node_count(),
            forall|i: usize, j: usize| #[trigger] final(self).link(i, j) == old(self).link(i, j),
            forall|i: usize| #[trigger] final(self).is_head(i) == old(self).is_head(i),
            final(self).well_formed() == old(self).well_formed(),
            match r {
                Some(w) => {
                    &&& id.graph() == old(self).graph()
                    &&& id.position() < old(self).node_count()
                    &&& *w == old(self).value(id.position())
                    &&& forall|i: usize| i < old(self).node_count() ==> #[trigger] final(self).value(i)
                        == if i == id.position() { *final(w) } else { old(self).value(i) }
                },
                None => {
                    &&& !(id.graph() == old(self).graph() && id.position() < old(self).node_count())
                    &&& forall|i: usize| #[trigger] final(self).value(i) == old(self).value(i)
                },
            },
    {
        if id.graph_id != self.graph_id || id.index >= self.values.len() {
            None
        } else {
            Some(&mut self.values[id.index])
        }
    }

    /// The weight of the node `id`, to change it; `id` names a node of this graph.
    pub fn index_mut(&mut self, id: &NodeId<T>) -> (r: &mut T)
        requires
            id.graph() == old(self).graph(),
            id.position() < old(self).node_count(),
        ensures
            *r == old(self).value(id.position()),
            final(self).graph() == old(self).graph(),
            final(self).node_count() == old(self).node_count(),
            forall|i: usize, j: usize| #[trigger] final(self).link(i, j) == old(self).link(i, j),
            forall|i: usize| #[trigger] final(self).is_head(i) == old(self).is_head(i),
            final(self).well_formed() == old(self).well_formed(),
            forall|i: usize| i < old(self).node_count() ==> #[trigger] final(self).value(i)
                == if i == id.position() { *final(r) } else { old(self).value(i) },
    {
        &mut self.values[id.index]
    }
}

/// Positions of the records that a dataset keeps, and a map from each kept identifier to
/// its node.
fn kept_records(records: &Vec<CSVRecord>) -> (r: (Vec<usize>, IdMap))
    ensures
        r.0@ == kept_positions(records@),
        forall|i: int, j: int| 0 <= i < j < r.0@.len() ==> r.0@[i] < r.0@[j],
        forall|k: int| 0 <= k < r.0@.len() ==> (#[trigger] r.0@[k]) < records@.len(),
        forall|k: int|
            0 <= k < r.0@.len() ==> r.1@.contains_key((#[trigger] records@[r.0@[k] as int]).id@)
                && r.1@[records@[r.0@[k] as int].id@] == k,
        forall|s: Seq<char>| #[trigger]
            r.1@.contains_key(s) <==> exists|i: int| 0 <= i < records@.len() && records@[i].id@ == s,
        forall|s: Seq<char>| #[trigger]
            r.1@.contains_key(s) ==> r.1@[s] < r.0@.len() && records@[r.0@[r.1@[s] as int] as int].id@ == s,
{
    let n = records.len();
    let mut positions = IdMap::new();
    let mut i: usize = 0;
    while i < n
        invariant
            n == records@.len(),
            i <= n,
            positions@ == id_positions(records@.take(i as int)),
        decreases n - i,
    {
        positions.insert(records[i].id.clone(), i);
        assert(records@.take(i + 1).drop_last() =~= records@.take(i as int));
        i = i + 1;
    }
    assert(records@.take(i as int) =~= records@);
    let ghost idx = Seq::new(records@.len(), |i: int| i as usize);
    let mut kept: Vec<usize> = Vec::new();
    let mut node_map = IdMap::new();
    let mut i: usize = 0;
    while i < n
        invariant
            n == records@.len(),
            i <= n,
            idx == Seq::new(records@.len(), |i: int| i as usize),
            positions@ == id_positions(records@),
            kept@ == idx.take(i as int).filter(last_of_id(records@)),
            forall|a: int, b: int| 0 <= a < b < kept@.len() ==> kept@[a] < kept@[b],
            forall|k: int| 0 <= k < kept@.len() ==> (#[trigger] kept@[k]) < i,
            forall|j: usize| j < i ==> (kept@.contains(j) <==> #[trigger] last_of_id(records@)(j)),
            forall|k: int|
                0 <= k < kept@.len() ==> node_map@.contains_key((#[trigger] records@[kept@[k] as int]).id@)
                    && node_map@[records@[kept@[k] as int].id@] == k,
            forall|s: Seq<char>| #[trigger]
                node_map@.contains_key(s) ==> exists|k: int| 0 <= k < kept@.len() && records@[kept@[k] as int].id@ == s,
            forall|j: int| 0 <= j < i && #[trigger] last_of_id(records@)(j as usize) ==> node_map@.contains_key(records@[j].id@),
        decreases n - i,
    {
        proof {
            lemma_filter_take(idx, i as int, last_of_id(records@));
            lemma_id_positions_last(records@, i as int);
            lemma_id_positions_contains(records@, i as int);
        }
        let ghost old_kept = kept@;
        let ghost old_map = node_map@;
        if positions.get(&records[i].id) == Some(i) {
            let k = kept.len();
            node_map.insert(records[i].id.clone(), k);
            kept.push(i);
            proof {
                assert(kept@[k as int] == i);
                assert forall|q: int|
                    0 <= q < kept@.len() implies node_map@.contains_key((#[trigger] records@[kept@[q] as int]).id@)
                        && node_map@[records@[kept@[q] as int].id@] == q by {
                    if q < k {
                        assert(kept@[q] == old_kept[q]);
                        assert(records@[kept@[q] as int].id@ != records@[i as int].id@) by {
                            assert(last_of_id(records@)(kept@[q]));
                            assert(kept@[q] < i);
                        }
                    }
                }
                assert forall|s: Seq<char>| #[trigger]
                    node_map@.contains_key(s) implies exists|q: int| 0 <= q < kept@.len() && records@[kept@[q] as int].id@ == s by {
                    if s != records@[i as int].id@ {
                        assert(old_map.contains_key(s));
                        let q = choose|q: int| 0 <= q < old_kept.len() && records@[old_kept[q] as int].id@ == s;
                        assert(kept@[q] == old_kept[q]);
                    } else {
                        assert(kept@[k as int] == i);
                    }
                }
                assert forall|j: usize| j < i + 1 implies (kept@.contains(j) <==> #[trigger] last_of_id(records@)(j)) by {
                    if j < i {
                        if old_kept.contains(j) {
                            let q = choose|q: int| 0 <= q < old_kept.len() && old_kept[q] == j;
                            assert(kept@[q] == j);
                        }
                        if kept@.contains(j) {
                            let q = choose|q: int| 0 <= q < kept@.len() && kept@[q] == j;
                            if q < old_kept.len() {
                                assert(old_kept[q] == j);
                            }
                        }
                    } else {
                        assert(kept@[k as int] == j);
                    }
                }
            }
        } else {
            proof {
                assert forall|j: usize| j < i + 1 implies (kept@.contains(j) <==> #[trigger] last_of_id(records@)(j)) by {
                    if j == i {
                        if kept@.contains(j) {
                            let q = choose|q: int| 0 <= q < kept@.len() && kept@[q] == j;
                        }
                    }
                }
                assert forall|j: int| 0 <= j < i + 1 && #[trigger] last_of_id(records@)(j as usize) implies node_map@.contains_key(records@[j].id@) by {
                    if j == i {
                        assert(false);
                    }
                }
            }
        }
        proof {
            assert(idx[i as int] == i);
            assert forall|j: int| 0 <= j < i + 1 && #[trigger] last_of_id(records@)(j as usize) implies node_map@.contains_key(records@[j].id@) by {
                if j < i {
                    assert(old_map.contains_key(records@[j].id@));
                }
            }
        }
        i = i + 1;
    }
    assert(idx.take(i as int) =~= idx);
    proof {
        assert forall|s: Seq<char>| #[trigger]
            node_map@.contains_key(s) <==> exists|i: int| 0 <= i < records@.len() && records@[i].id@ == s by {
            if node_map@.contains_key(s) {
                let q = choose|q: int| 0 <= q < kept@.len() && records@[kept@[q] as int].id@ == s;
            }
            if exists|i: int| 0 <= i < records@.len() && records@[i].id@ == s {
                let i = choose|i: int| 0 <= i < records@.len() && records@[i].id@ == s;
                lemma_id_positions_contains(records@, i);
                lemma_id_positions_bound(records@);
                let p = id_positions(records@)[s];
                lemma_id_positions_maps_own(records@, s);
                lemma_id_positions_last(records@, p as int);
                assert(last_of_id(records@)(p));
            }
        }
    }
    proof {
        assert forall|s: Seq<char>| #[trigger]
            node_map@.contains_key(s) implies node_map@[s] < kept@.len() && records@[kept@[node_map@[s] as int] as int].id@ == s by {
            let q = choose|q: int| 0 <= q < kept@.len() && records@[kept@[q] as int].id@ == s;
            assert(node_map@[records@[kept@[q] as int].id@] == q);
        }
    }
    (kept, node_map)
}

/// The record behind the `k`-th node of the graph of a dataset.
pub open spec fn kept_record(recs: Seq<CSVRecord>, k: int) -> CSVRecord {
    recs[kept_positions(recs)[k] as int]
}

impl LinkedDag<Paper> {
    /// The graph of a dataset: a node per identifier, holding the last record with that
    /// identifier, in the order of those records; an edge from a node to each node whose
    /// identifier its record cites; and as heads the nodes that nothing cites.
    pub fn from_records(records: Vec<CSVRecord>) -> (r: Self)
        ensures
            r.well_formed(),
            r.node_count() == kept_positions(records@).len(),
            forall|k: usize|
                k < r.node_count() ==> #[trigger] r.value(k) == paper_of(kept_record(records@, k as int)),
            forall|a: usize, b: usize|
                a < r.node_count() && b < r.node_count() ==> (#[trigger] r.link(a, b) <==> cited_ids(
                    kept_record(records@, a as int),
                ).contains(kept_record(records@, b as int).id@)),
            forall|k: usize|
                k < r.node_count() ==> (#[trigger] r.is_head(k) <==> forall|a: usize|
                    a < r.node_count() ==> !#[trigger] r.link(a, k)),
            acyclic(r) ==> forall|id: NodeId<Paper>| #[trigger] r.contains_node(id) ==> r.searchable(id),
    {
        let (kept, node_map) = kept_records(&records);
        let nk = kept.len();
        let mut values: Vec<Paper> = Vec::new();
        let mut prevs: Vec<Vec<usize>> = Vec::new();
        let mut k: usize = 0;
        while k < nk
            invariant
                nk == kept@.len(),
                kept@ == kept_positions(records@),
                forall|q: int| 0 <= q < kept@.len() ==> (#[trigger] kept@[q]) < records@.len(),
                k <= nk,
                values@.len() == k,
                prevs@.len() == k,
                forall|q: int| 0 <= q < k ==> (#[trigger] values@[q]) == paper_of(kept_record(records@, q)),
                forall|q: int| 0 <= q < k ==> (#[trigger] prevs@[q])@.len() == 0,
            decreases nk - k,
        {
            values.push(Paper::from_record(&records[kept[k]]));
            prevs.push(Vec::new());
            k = k + 1;
        }
        let mut nexts: Vec<Vec<usize>> = Vec::new();
        let mut k: usize = 0;
        while k < nk
            invariant
                nk == kept@.len(),
                kept@ == kept_positions(records@),
                forall|q: int| 0 <= q < kept@.len() ==> (#[trigger] kept@[q]) < records@.len(),
                forall|q: int|
                    0 <= q < kept@.len() ==> node_map@.contains_key((#[trigger] records@[kept@[q] as int]).id@)
                        && node_map@[records@[kept@[q] as int].id@] == q,
                forall|s: Seq<char>| #[trigger]
                    node_map@.contains_key(s) ==> node_map@[s] < kept@.len() && records@[kept@[node_map@[s] as int] as int].id@ == s,
                k <= nk,
                nexts@.len() == k,
                prevs@.len() == nk,
                forall|a: int| 0 <= a < k ==> (#[trigger] nexts@[a])@.no_duplicates(),
                forall|a: int, q: int| 0 <= a < k && 0 <= q < nexts@[a]@.len() ==> (#[trigger] nexts@[a]@[q]) < nk,
                forall|a: usize, t: usize|
                    a < k && t < nk ==> (#[trigger] nexts@[a as int]@.contains(t) <==> cited_ids(
                        kept_record(records@, a as int),
                    ).contains(kept_record(records@, t as int).id@)),
                forall|t: int| 0 <= t < nk ==> (#[trigger] prevs@[t])@.no_duplicates(),
                forall|t: int, q: int| 0 <= t < nk && 0 <= q < prevs@[t]@.len() ==> (#[trigger] prevs@[t]@[q]) < k,
                forall|t: usize, a: usize|
                    t < nk ==> (#[trigger] prevs@[t as int]@.contains(a) <==> (a < k && nexts@[a as int]@.contains(t))),
            decreases nk - k,
        {
            let rec = &records[kept[k]];
            let mut row: Vec<usize> = Vec::new();
            let mut j: usize = 0;
            while j < rec.references.len()
                invariant
                    nk == kept@.len(),
                    k < nk,
                    rec == &records@[kept@[k as int] as int],
                    kept@ == kept_positions(records@),
                    forall|q: int| 0 <= q < kept@.len() ==> (#[trigger] kept@[q]) < records@.len(),
                    forall|q: int|
                        0 <= q < kept@.len() ==> node_map@.contains_key((#[trigger] records@[kept@[q] as int]).id@)
                            && node_map@[records@[kept@[q] as int].id@] == q,
                    forall|s: Seq<char>| #[trigger]
                        node_map@.contains_key(s) ==> node_map@[s] < kept@.len() && records@[kept@[node_map@[s] as int] as int].id@ == s,
                    j <= rec.references@.len(),
                    nexts@.len() == k,
                    prevs@.len() == nk,
                    row@.no_duplicates(),
                    forall|q: int| 0 <= q < row@.len() ==> (#[trigger] row@[q]) < nk,
                    forall|t: usize|
                        t < nk ==> (#[trigger] row@.contains(t) <==> exists|r: int|
                            0 <= r < j && (#[trigger] rec.references@[r])@ == kept_record(records@, t as int).id@),
                    forall|t: int| 0 <= t < nk ==> (#[trigger] prevs@[t])@.no_duplicates(),
                    forall|t: int, q: int| 0 <= t < nk && 0 <= q < prevs@[t]@.len() ==> (#[trigger] prevs@[t]@[q]) <= k,
                    forall|t: usize, a: usize|
                        t < nk ==> (#[trigger] prevs@[t as int]@.contains(a) <==> ((a < k && nexts@[a as int]@.contains(t))
                            || (a == k && row@.contains(t)))),
                decreases rec.references@.len() - j,
            {
                let ghost old_row = row@;
                let ghost old_prevs = prevs@;
                let ghost key = rec.references@[j as int]@;
                match node_map.get(&rec.references[j]) {
                    Some(t) => {
                        if position_in(&row, t).is_none() {
                            proof {
                                lemma_push_contains(row@, t);
                            }
                            row.push(t);
                            let mut p = prevs[t].clone();
                            proof {
                                assert(!p@.contains(k)) by {
                                    if p@.contains(k) {
                                        assert(prevs@[t as int]@.contains(k));
                                    }
                                }
                                lemma_push_contains(p@, k);
                            }
                            p.push(k);
                            prevs.set(t, p);
                        }
                        proof {
                            assert forall|u: usize|
                                u < nk implies (#[trigger] row@.contains(u) <==> exists|r: int|
                                    0 <= r < j + 1 && (#[trigger] rec.references@[r])@ == kept_record(records@, u as int).id@) by {
                                if u == t {
                                    assert(rec.references@[j as int]@ == kept_record(records@, u as int).id@);
                                } else {
                                    if exists|r: int| 0 <= r < j + 1 && (#[trigger] rec.references@[r])@ == kept_record(records@, u as int).id@ {
                                        let r = choose|r: int| 0 <= r < j + 1 && (#[trigger] rec.references@[r])@ == kept_record(records@, u as int).id@;
                                        if r == j {
                                            assert(node_map@[kept_record(records@, u as int).id@] == u);
                                        }
                                    }
                                }
                            }
                            assert forall|u: usize, a: usize|
                                u < nk implies (#[trigger] prevs@[u as int]@.contains(a) <==> ((a < k && nexts@[a as int]@.contains(u))
                                    || (a == k && row@.contains(u)))) by {
                                if u != t {
                                    assert(prevs@[u as int] == old_prevs[u as int]);
                                }
                            }
                            assert forall|u: int, q: int| 0 <= u < nk && 0 <= q < prevs@[u]@.len() implies (#[trigger] prevs@[u]@[q]) <= k by {
                                if u == t && q < old_prevs[u]@.len() {
                                    assert(prevs@[u]@[q] == old_prevs[u]@[q]);
                                } else if u != t {
                                    assert(prevs@[u] == old_prevs[u]);
                                }
                            }
                        }
                    },
                    None => {
                        proof {
                            assert forall|u: usize|
                                u < nk implies (#[trigger] row@.contains(u) <==> exists|r: int|
                                    0 <= r < j + 1 && (#[trigger] rec.references@[r])@ == kept_record(records@, u as int).id@) by {
                                if exists|r: int| 0 <= r < j + 1 && (#[trigger] rec.references@[r])@ == kept_record(records@, u as int).id@ {
                                    let r = choose|r: int| 0 <= r < j + 1 && (#[trigger] rec.references@[r])@ == kept_record(records@, u as int).id@;
                                    if r == j {
                                        assert(node_map@.contains_key(kept_record(records@, u as int).id@));
                                    }
                                }
                            }
                        }
                    },
                }
                j = j + 1;
            }
            let ghost old_nexts = nexts@;
            nexts.push(row);
            proof {
                assert forall|a: usize, t: usize|
                    a < k + 1 && t < nk implies (#[trigger] nexts@[a as int]@.contains(t) <==> cited_ids(
                        kept_record(records@, a as int),
                    ).contains(kept_record(records@, t as int).id@)) by {
                    if a == k {
                        let kr = kept_record(records@, a as int);
                        if cited_ids(kr).contains(kept_record(records@, t as int).id@) {
                            let r = choose|r: int| 0 <= r < kr.references@.len() && #[trigger] kr.references@[r]@ == kept_record(records@, t as int).id@;
                        }
                    } else {
                        assert(nexts@[a as int] == old_nexts[a as int]);
                    }
                }
                assert forall|t: usize, a: usize|
                    t < nk implies (#[trigger] prevs@[t as int]@.contains(a) <==> (a < k + 1 && nexts@[a as int]@.contains(t))) by {
                    if a < k {
                        assert(nexts@[a as int] == old_nexts[a as int]);
                    }
                }
                assert forall|a: int| 0 <= a < k + 1 implies (#[trigger] nexts@[a])@.no_duplicates() by {
                    if a < k {
                        assert(nexts@[a] == old_nexts[a]);
                    }
                }
                assert forall|a: int, q: int| 0 <= a < k + 1 && 0 <= q < nexts@[a]@.len() implies (#[trigger] nexts@[a]@[q]) < nk by {
                    if a < k {
                        assert(nexts@[a] == old_nexts[a]);
                    }
                }
                assert forall|t: int, q: int| 0 <= t < nk && 0 <= q < prevs@[t]@.len() implies (#[trigger] prevs@[t]@[q]) < k + 1 by {
                }
            }
            k = k + 1;
        }
        let mut heads: Vec<usize> = Vec::new();
        let mut t: usize = 0;
        while t < nk
            invariant
                nk == prevs@.len(),
                t <= nk,
                heads@.no_duplicates(),
                forall|q: int| 0 <= q < heads@.len() ==> (#[trigger] heads@[q]) < t,
                forall|u: usize| u < nk ==> (#[trigger] heads@.contains(u) <==> (u < t && prevs@[u as int]@.len() == 0)),
            decreases nk - t,
        {
            if prevs[t].len() == 0 {
                proof {
                    lemma_push_contains(heads@, t);
                    assert(!heads@.contains(t)) by {
                        if heads@.contains(t) {
                            let q = choose|q: int| 0 <= q < heads@.len() && heads@[q] == t;
                        }
                    }
                }
                heads.push(t);
            }
            proof {
                assert forall|q: int| 0 <= q < heads@.len() implies (#[trigger] heads@[q]) < t + 1 by {
                }
            }
            t = t + 1;
        }
        let r = LinkedDag { graph_id: random_graph_id(), values, nexts, prevs, heads };
        proof {
            assert forall|i: usize, j: usize|
                i < nk && j < nk implies (#[trigger] r.nexts@[i as int]@.contains(j)
                    <==> #[trigger] r.prevs@[j as int]@.contains(i)) by {
            }
            assert(r.well_formed());
            assert forall|b: usize|
                b < r.node_count() implies (#[trigger] r.is_head(b) <==> forall|a: usize|
                    a < r.node_count() ==> !#[trigger] r.link(a, b)) by {
                if !r.is_head(b) {
                    assert(r.prevs@[b as int]@.len() > 0);
                    let a = r.prevs@[b as int]@[0];
                    assert(r.prevs@[b as int]@.contains(a));
                    assert(r.link(a, b));
                }
                if r.is_head(b) {
                    assert forall|a: usize| a < r.node_count() implies !#[trigger] r.link(a, b) by {
                        if r.link(a, b) {
                            assert(r.prevs@[b as int]@.contains(a));
                        }
                    }
                }
            }
            if acyclic(r) {
                assert forall|id: NodeId<Paper>| #[trigger] r.contains_node(id) implies r.searchable(id) by {
                    r.lemma_acyclic_searchable(id);
                }
            }
        }
        r
    }
}

impl<T> Default for LinkedDag<T> {
    /// A graph without nodes, with a fresh identifier.
    fn default() -> (r: Self)
        ensures
            r.well_formed(),
            r.node_count() == 0,
    {
        Self::new()
    }
}

impl<T> Dag<T, NodeId<T>> for LinkedDag<T> {
    open spec fn wf(&self) -> bool {
        self.well_formed()
    }

    open spec fn contains_node(&self, id: NodeId<T>) -> bool {
        id.graph() == self.graph() && id.position() < self.node_count()
    }

    open spec fn has_edge(&self, from: NodeId<T>, to: NodeId<T>) -> bool {
        &&& self.contains_node(from)
        &&& self.contains_node(to)
        &&& self.link(from.position(), to.position())
    }

    open spec fn weight(&self, id: NodeId<T>) -> T {
        self.value(id.position())
    }

    open spec fn searchable(&self, id: NodeId<T>) -> bool {
        self.contains_node(id) && self.reachable(id.position())
    }

    /// The nodes that `node` cites, in the order its links are kept; none for an id that
    /// names no node of this graph.
    open spec fn out_list(&self, node: NodeId<T>) -> Seq<NodeId<T>> {
        if self.contains_node(node) {
            self.next_list(node.position()).map_values(|j: usize| NodeId::<T>::spec_at(self.graph(), j))
        } else {
            Seq::empty()
        }
    }

    /// The nodes that cite `node`, in the order its back links are kept; none for an id that
    /// names no node of this graph.
    open spec fn in_list(&self, node: NodeId<T>) -> Seq<NodeId<T>> {
        if self.contains_node(node) {
            self.prev_list(node.position()).map_values(|j: usize| NodeId::<T>::spec_at(self.graph(), j))
        } else {
            Seq::empty()
        }
    }

    /// The search from the heads promises no order.
    open spec fn scanned_before(&self, a: NodeId<T>, b: NodeId<T>) -> bool {
        false
    }

    open spec fn steppable(&self, id: NodeId<T>) -> bool {
        true
    }

    open spec fn edges_closed(&self) -> bool {
        true
    }

    proof fn lemma_edge_ends(&self, from: NodeId<T>, to: NodeId<T>) {
    }

    proof fn lemma_searchable_node(&self, id: NodeId<T>) {
    }

    open spec fn node_count(&self) -> nat {
        self.node_count()
    }

    open spec fn node_index(&self, id: NodeId<T>) -> nat {
        id.position() as nat
    }

    proof fn lemma_node_index(&self, a: NodeId<T>, b: NodeId<T>) {
        NodeId::<T>::lemma_eq(a, b);
    }

    /// The nodes that `node` cites, none when `node` belongs to no node of this graph.
    fn neighbors(&self, node: &NodeId<T>) -> (r: Vec<NodeId<T>>)
        ensures
            r@.no_duplicates(),
    {
        let mut r: Vec<NodeId<T>> = Vec::new();
        if node.graph_id != self.graph_id || node.index >= self.values.len() {
            proof {
                assert forall|m: NodeId<T>| r@.contains(m) <==> self.has_edge(*node, m) by {
                }
            }
            assert(r@ =~= self.out_list(*node));
            return r;
        }
        let row = &self.nexts[node.index];
        let mut k: usize = 0;
        while k < row.len()
            invariant
                self.well_formed(),
                node.graph() == self.graph(),
                node.position() < self.node_count(),
                row == &self.nexts@[node.position() as int],
                k <= row@.len(),
                r@.len() == k,
                forall|t: int|
                    0 <= t < k ==> (#[trigger] r@[t]).graph() == self.graph() && r@[t].position()
                        == row@[t],
            decreases row@.len() - k,
        {
            r.push(NodeId::new(self.graph_id, row[k]));
            k = k + 1;
        }
        proof {
            assert forall|m: NodeId<T>| r@.contains(m) <==> self.has_edge(*node, m) by {
                if r@.contains(m) {
                    let t = choose|t: int| 0 <= t < r@.len() && r@[t] == m;
                    assert(row@.contains(row@[t]));
                }
                if self.has_edge(*node, m) {
                    let t = choose|t: int| 0 <= t < row@.len() && row@[t] == m.position();
                    NodeId::lemma_eq(r@[t], m);
                }
            }
            assert forall|t: int| 0 <= t < r@.len() implies r@[t] == NodeId::<T>::spec_at(self.graph(), row@[t]) by {
                NodeId::<T>::lemma_spec_at(self.graph(), row@[t], r@[t]);
            }
            assert(r@ =~= self.out_list(*node));
            assert forall|a: int, b: int| 0 <= a < r@.len() && 0 <= b < r@.len() && a != b implies r@[a]
                != r@[b] by {
                assert(row@[a] != row@[b]);
            }
        }
        r
    }

    /// The nodes that cite `node`, none when `node` belongs to no node of this graph.
    fn neighbors_back(&self, node: &NodeId<T>) -> (r: Vec<NodeId<T>>)
        ensures
            r@.no_duplicates(),
    {
        let mut r: Vec<NodeId<T>> = Vec::new();
        if node.graph_id != self.graph_id || node.index >= self.values.len() {
            proof {
                assert forall|m: NodeId<T>| r@.contains(m) <==> self.has_edge(m, *node) by {
                }
            }
            assert(r@ =~= self.in_list(*node));
            return r;
        }
        let row = &self.prevs[node.index];
        let mut k: usize = 0;
        while k < row.len()
            invariant
                self.well_formed(),
                node.graph() == self.graph(),
                node.position() < self.node_count(),
                row == &self.prevs@[node.position() as int],
                k <= row@.len(),
                r@.len() == k,
                forall|t: int|
                    0 <= t < k ==> (#[trigger] r@[t]).graph() == self.graph() && r@[t].position()
                        == row@[t],
            decreases row@.len() - k,
        {
            r.push(NodeId::new(self.graph_id, row[k]));
            k = k + 1;
        }
        proof {
            assert forall|m: NodeId<T>| r@.contains(m) <==> self.has_edge(m, *node) by {
                if r@.contains(m) {
                    let t = choose|t: int| 0 <= t < r@.len() && r@[t] == m;
                    assert(row@.contains(row@[t]));
                }
                if self.has_edge(m, *node) {
                    assert(self.nexts@[m.position() as int]@.contains(node.position()));
                    assert(self.prevs@[node.position() as int]@.contains(m.position()));
                    let t = choose|t: int| 0 <= t < row@.len() && row@[t] == m.position();
                    NodeId::lemma_eq(r@[t], m);
                }
            }
            assert forall|t: int| 0 <= t < r@.len() implies r@[t] == NodeId::<T>::spec_at(self.graph(), row@[t]) by {
                NodeId::<T>::lemma_spec_at(self.graph(), row@[t], r@[t]);
            }
            assert(r@ =~= self.in_list(*node));
            assert forall|a: int, b: int| 0 <= a < r@.len() && 0 <= b < r@.len() && a != b implies r@[a]
                != r@[b] by {
                assert(row@[a] != row@[b]);
            }
        }
        r
    }

    fn find_nodes<F: Fn(&NodeId<T>, &T) -> bool>(&self, func: F) -> (r: Vec<NodeId<T>>) {
        self.search_nodes(func, false)
    }

    fn find_node<F: Fn(&NodeId<T>, &T) -> bool>(&self, func: F) -> (r: Option<NodeId<T>>) {
        let found = self.search_nodes(func, true);
        if found.len() > 0 {
            Some(found[0])
        } else {
            None
        }
    }

    fn get(&self, id: &NodeId<T>) -> (r: Option<&T>) {
        if id.graph_id != self.graph_id || id.index >= self.values.len() {
            None
        } else {
            Some(&self.values[id.index])
        }
    }

    fn index(&self, id: &NodeId<T>) -> (r: &T) {
        &self.values[id.index]
    }

    fn same_node(&self, a: &NodeId<T>, b: &NodeId<T>) -> (r: bool) {
        proof {
            NodeId::lemma_eq(*a, *b);
        }
        a.graph_id == b.graph_id && a.index == b.index
    }
}

} // verus!
