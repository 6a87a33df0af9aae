//! The interface that every graph representation offers, and the searches built on it.
use crate::records::Paper;
use vstd::prelude::*;
use vstd::set_lib::{lemma_int_range, lemma_len_subset, set_int_range};

verus! {

/// A directed graph of weighted nodes; an edge `from -> to` means that `from` cites `to`.
pub trait Dag<W, Id: Copy>: Sized {

    /// The representation is consistent.
    spec fn wf(&self) -> bool;

    /// `id` names a node of this graph.
    spec fn contains_node(&self, id: Id) -> bool;

    /// The graph has an edge `from -> to`.
    spec fn has_edge(&self, from: Id, to: Id) -> bool;

    /// The weight of the node `id`.
    spec fn weight(&self, id: Id) -> W;

    /// The node `id` is one that `find_node` and `find_nodes` consider.
    spec fn searchable(&self, id: Id) -> bool;

    /// `find_node` looks at `a` before it looks at `b`; a graph that promises no order says
    /// this of no pair.
    spec fn scanned_before(&self, a: Id, b: Id) -> bool;

    /// The neighbours of `id` can be listed.
    spec fn steppable(&self, id: Id) -> bool;

    /// Both ends of every edge are nodes.
    spec fn edges_closed(&self) -> bool;

    /// In a graph whose edges join nodes, both ends of an edge are nodes whose neighbours can
    /// be listed.
    proof fn lemma_edge_ends(&self, from: Id, to: Id)
        requires
            self.wf(),
            self.edges_closed(),
            self.has_edge(from, to),
        ensures
            self.contains_node(from),
            self.contains_node(to),
            self.steppable(from),
            self.steppable(to),
    ;

    /// Searchable ids name nodes whose neighbours can be listed.
    proof fn lemma_searchable_node(&self, id: Id)
        requires
            self.wf(),
            self.searchable(id),
        ensures
            self.contains_node(id),
            self.steppable(id),
    ;

    /// How many nodes the graph has.
    spec fn node_count(&self) -> nat;

    /// The position of a node among the graph's nodes.
    spec fn node_index(&self, id: Id) -> nat;

    /// Positions are below the node count and tell nodes apart.
    proof fn lemma_node_index(&self, a: Id, b: Id)
        requires
            self.wf(),
            self.contains_node(a),
            self.contains_node(b),
        ensures
            self.node_index(a) < self.node_count(),
            self.node_index(a) == self.node_index(b) ==> a == b,
    ;

    /// The list of the nodes that `node` cites, in the order `neighbors` gives them.
    spec fn out_list(&self, node: Id) -> Seq<Id>;

    /// The list of the nodes that cite `node`, in the order `neighbors_back` gives them.
    spec fn in_list(&self, node: Id) -> Seq<Id>;

    /// The nodes that `node` cites.
    fn neighbors(&self, node: &Id) -> (r: Vec<Id>)
        requires
            self.wf(),
            self.steppable(*node),
        ensures
            r@ == self.out_list(*node),
            forall|m: Id| r@.contains(m) <==> self.has_edge(*node, m),
    ;

    /// The nodes that cite `node`.
    fn neighbors_back(&self, node: &Id) -> (r: Vec<Id>)
        requires
            self.wf(),
            self.steppable(*node),
        ensures
            r@ == self.in_list(*node),
            forall|m: Id| r@.contains(m) <==> self.has_edge(m, *node),
    ;

    /// The searchable nodes for which `func` holds, each once.
    fn find_nodes<F: Fn(&Id, &W) -> bool>(&self, func: F) -> (r: Vec<
        Id,
    >)
        requires
            self.wf(),
            forall|id: Id, w: W| #[trigger] call_requires(func, (&id, &w)),
        ensures
            r@.no_duplicates(),
            forall|i: int, j: int| 0 <= i < j < r@.len() ==> !self.scanned_before(r@[j], r@[i]),
            forall|i: int|
                0 <= i < r@.len() ==> self.searchable(#[trigger] r@[i]) && call_ensures(
                    func,
                    (&r@[i], &self.weight(r@[i])),
                    true,
                ),
            forall|id: Id|
                self.searchable(id) && !r@.contains(id) ==> call_ensures(
                    func,
                    (&id, &#[trigger] self.weight(id)),
                    false,
                ),
    ;

    /// A searchable node for which `func` holds, if there is one.
    fn find_node<F: Fn(&Id, &W) -> bool>(&self, func: F) -> (r: Option<
        Id,
    >)
        requires
            self.wf(),
            forall|id: Id, w: W| #[trigger] call_requires(func, (&id, &w)),
        ensures
            match r {
                Some(id) => {
                    &&& self.searchable(id)
                    &&& call_ensures(func, (&id, &self.weight(id)), true)
                    &&& forall|j: Id|
                        self.searchable(j) && #[trigger] self.scanned_before(j, id) ==> call_ensures(
                            func,
                            (&j, &self.weight(j)),
                            false,
                        )
                },
                None => forall|id: Id|
                    self.searchable(id) ==> call_ensures(
                        func,
                        (&id, &#[trigger] self.weight(id)),
                        false,
                    ),
            },
    ;

    /// The weight of `id`, if it names a node.
    fn get(&self, id: &Id) -> (r: Option<&W>)
        requires
            self.wf(),
        ensures
            match r {
                Some(w) => self.contains_node(*id) && *w == self.weight(*id),
                None => !self.contains_node(*id),
            },
    ;

    /// The weight of a node.
    fn index(&self, id: &Id) -> (r: &W)
        requires
            self.wf(),
            self.contains_node(*id),
        ensures
            *r == self.weight(*id),
    ;

    /// Whether two ids are the same.
    fn same_node(&self, a: &Id, b: &Id) -> (r: bool)
        ensures
            r == (*a == *b),
    ;
}

/// An edge followed forwards (`fwd`, from a citing paper to a cited one) or backwards.
pub open spec fn linked<W, Id: Copy, G: Dag<W, Id>>(g: G, fwd: bool, x: Id, y: Id) -> bool {
    if fwd {
        g.has_edge(x, y)
    } else {
        g.has_edge(y, x)
    }
}

/// The nodes reached from `a` by exactly `k` steps in the direction `fwd`.
pub open spec fn level<W, Id: Copy, G: Dag<W, Id>>(g: G, fwd: bool, a: Id, k: nat) -> Set<Id>
    decreases k,
{
    if k == 0 {
        set![a]
    } else {
        Set::new(
            |y: Id|
                exists|x: Id| #[trigger]
                    level(g, fwd, a, (k - 1) as nat).contains(x) && linked(g, fwd, x, y),
        )
    }
}
/// The nodes reached from `a` by at least one step.
pub open spec fn reached<W, Id: Copy, G: Dag<W, Id>>(g: G, fwd: bool, a: Id) -> Set<Id> {
    Set::new(|x: Id| exists|j: nat| 1 <= j && #[trigger] level(g, fwd, a, j).contains(x))
}

/// Whether `x` occurs in `v`.
fn contains_id<W, Id: Copy, G: Dag<W, Id>>(dag: &G, v: &Vec<Id>, x: &Id) -> (r: bool)
    ensures
        r == v@.contains(*x),
{
    let mut i: usize = 0;
    while i < v.len()
        invariant
            i <= v@.len(),
            forall|j: int| 0 <= j < i ==> v@[j] != *x,
        decreases v@.len() - i,
    {
        if dag.same_node(&v[i], x) {
            return true;
        }
        i = i + 1;
    }
    false
}

/// Adds `x` to the set that `v` holds.
fn insert_id<W, Id: Copy, G: Dag<W, Id>>(dag: &G, v: &mut Vec<Id>, x: Id)
    requires
        old(v)@.no_duplicates(),
    ensures
        final(v)@.no_duplicates(),
        final(v)@.to_set() == old(v)@.to_set().insert(x),
        old(v)@.len() <= final(v)@.len(),
        forall|i: int| 0 <= i < old(v)@.len() ==> final(v)@[i] == old(v)@[i],
{
    if !contains_id(dag, v, &x) {
        proof {
            lemma_push_to_set(v@, x);
        }
        v.push(x);
    } else {
        assert(v@.to_set() =~= old(v)@.to_set().insert(x));
    }
}

/// The ids that occur in both `v` and `w`.
fn intersect_ids<W, Id: Copy, G: Dag<W, Id>>(dag: &G, v: &Vec<Id>, w: &Vec<Id>) -> (r: Vec<Id>)
    ensures
        r@.no_duplicates(),
        r@.to_set() == v@.to_set().intersect(w@.to_set()),
{
    let mut r: Vec<Id> = Vec::new();
    let mut i: usize = 0;
    while i < v.len()
        invariant
            i <= v@.len(),
            r@.no_duplicates(),
            r@.to_set() == v@.take(i as int).to_set().intersect(w@.to_set()),
        decreases v@.len() - i,
    {
        let x = v[i];
        if contains_id(dag, w, &x) {
            insert_id(dag, &mut r, x);
        }
        proof {
            lemma_take_next_to_set(v@, i as int);
        }
        assert(r@.to_set() =~= v@.take(i + 1).to_set().intersect(w@.to_set()));
        i = i + 1;
    }
    assert(v@.take(i as int) =~= v@);
    r
}

/// Adds every id of `w` to the set that `v` holds.
fn union_ids<W, Id: Copy, G: Dag<W, Id>>(dag: &G, v: &mut Vec<Id>, w: &Vec<Id>)
    requires
        old(v)@.no_duplicates(),
    ensures
        final(v)@.no_duplicates(),
        final(v)@.to_set() == old(v)@.to_set().union(w@.to_set()),
        old(v)@.len() <= final(v)@.len(),
        forall|i: int| 0 <= i < old(v)@.len() ==> final(v)@[i] == old(v)@[i],
{
    let mut i: usize = 0;
    while i < w.len()
        invariant
            i <= w@.len(),
            v@.no_duplicates(),
            v@.to_set() == old(v)@.to_set().union(w@.take(i as int).to_set()),
            old(v)@.len() <= v@.len(),
            forall|j: int| 0 <= j < old(v)@.len() ==> v@[j] == old(v)@[j],
        decreases w@.len() - i,
    {
        insert_id(dag, v, w[i]);
        proof {
            lemma_take_next_to_set(w@, i as int);
        }
        assert(v@.to_set() =~= old(v)@.to_set().union(w@.take(i + 1).to_set()));
        i = i + 1;
    }
    assert(w@.take(i as int) =~= w@);
}

/// The nodes one step away from `x` in the direction `fwd`.
fn step_ids<W, Id: Copy, G: Dag<W, Id>>(dag: &G, x: &Id, fwd: bool) -> (r: Vec<Id>)
    requires
        dag.wf(),
        dag.steppable(*x),
    ensures
        forall|y: Id| r@.contains(y) <==> linked(*dag, fwd, *x, y),
{
    if fwd {
        dag.neighbors(x)
    } else {
        dag.neighbors_back(x)
    }
}


proof fn lemma_push_to_set<A>(s: Seq<A>, x: A)
    ensures
        s.push(x).to_set() == s.to_set().insert(x),
        s.no_duplicates() && !s.contains(x) ==> s.push(x).no_duplicates(),
{
    assert forall|y: A| s.push(x).contains(y) <==> s.to_set().insert(x).contains(y) by {
        if s.push(x).contains(y) {
            let t = choose|t: int| 0 <= t < s.push(x).len() && s.push(x)[t] == y;
            if t < s.len() {
                assert(s[t] == y);
            }
        }
        if s.contains(y) {
            let t = choose|t: int| 0 <= t < s.len() && s[t] == y;
            assert(s.push(x)[t] == y);
        }
        if y == x {
            assert(s.push(x)[s.len() as int] == x);
        }
    }
    assert(s.push(x).to_set() =~= s.to_set().insert(x));
}

/// The first `i + 1` entries of `s` hold what the first `i` do, and `s[i]`.
proof fn lemma_take_next_to_set<A>(s: Seq<A>, i: int)
    requires
        0 <= i < s.len(),
    ensures
        s.take(i + 1).to_set() == s.take(i).to_set().insert(s[i]),
{
    assert(s.take(i + 1) =~= s.take(i).push(s[i]));
    lemma_push_to_set(s.take(i), s[i]);
}

/// `x` names a node whose neighbours can be listed.
pub open spec fn usable<W, Id: Copy, G: Dag<W, Id>>(g: G, x: Id) -> bool {
    g.steppable(x) && g.contains_node(x)
}


/// The first level holds the neighbours of the start.
proof fn lemma_first_level<W, Id: Copy, G: Dag<W, Id>>(g: G, fwd: bool, a: Id, s: Seq<Id>)
    requires
        forall|y: Id| s.contains(y) <==> linked(g, fwd, a, y),
    ensures
        s.to_set() == level(g, fwd, a, 1),
{
    assert(level(g, fwd, a, 0) == set![a]);
    assert forall|y: Id| s.to_set().contains(y) <==> level(g, fwd, a, 1).contains(y) by {
        if linked(g, fwd, a, y) {
            assert(level(g, fwd, a, 0).contains(a));
        }
    }
    assert(s.to_set() =~= level(g, fwd, a, 1));
}


/// Every node that some node of `s` links to in the direction `fwd` is in `s`.
pub open spec fn closed_under<W, Id: Copy, G: Dag<W, Id>>(g: G, fwd: bool, s: Set<Id>) -> bool {
    forall|x: Id, y: Id| #[trigger] s.contains(x) && #[trigger] linked(g, fwd, x, y) ==> s.contains(y)
}

/// A set that holds the first level from `a` and is closed under steps holds every level.
proof fn lemma_closed_holds_levels<W, Id: Copy, G: Dag<W, Id>>(
    g: G,
    fwd: bool,
    a: Id,
    s: Set<Id>,
    k: nat,
)
    requires
        level(g, fwd, a, 1).subset_of(s),
        closed_under(g, fwd, s),
        1 <= k,
    ensures
        level(g, fwd, a, k).subset_of(s),
    decreases k,
{
    if k > 1 {
        lemma_closed_holds_levels(g, fwd, a, s, (k - 1) as nat);
        assert forall|y: Id| level(g, fwd, a, k).contains(y) implies s.contains(y) by {
            let x = choose|x: Id| #[trigger] level(g, fwd, a, (k - 1) as nat).contains(x) && linked(g, fwd, x, y);
            assert(s.contains(x));
        }
    }
}

/// A node one step past a reached node is reached.
proof fn lemma_reached_step<W, Id: Copy, G: Dag<W, Id>>(g: G, fwd: bool, a: Id, x: Id, y: Id)
    requires
        reached(g, fwd, a).contains(x),
        linked(g, fwd, x, y),
    ensures
        reached(g, fwd, a).contains(y),
{
    let j = choose|j: nat| 1 <= j && #[trigger] level(g, fwd, a, j).contains(x);
    assert(level(g, fwd, a, (j + 1) as nat).contains(y)) by {
        assert(((j + 1) as nat - 1) as nat == j);
    }
}

/// A list of distinct nodes is no longer than the graph has nodes.
proof fn lemma_nodes_fit<W, Id: Copy, G: Dag<W, Id>>(g: G, s: Seq<Id>)
    requires
        g.wf(),
        s.no_duplicates(),
        forall|i: int| 0 <= i < s.len() ==> g.contains_node(#[trigger] s[i]),
    ensures
        s.len() <= g.node_count(),
{
    let n = g.node_count();
    let q = Seq::new(s.len(), |i: int| g.node_index(s[i]) as int);
    assert forall|i: int, j: int| 0 <= i < q.len() && 0 <= j < q.len() && i != j implies q[i] != q[j] by {
        g.lemma_node_index(s[i], s[j]);
    }
    assert(q.no_duplicates());
    assert forall|x: int| q.to_set().contains(x) implies set_int_range(0, n as int).contains(x) by {
        let i = choose|i: int| 0 <= i < q.len() && q[i] == x;
        g.lemma_node_index(s[i], s[i]);
    }
    lemma_int_range(0, n as int);
    lemma_len_subset(q.to_set(), set_int_range(0, n as int));
    q.unique_seq_to_set();
}

/// Every node reached from `a` in the direction `fwd`, each once.
fn reach_ids<W, Id: Copy, G: Dag<W, Id>>(dag: &G, a: &Id, fwd: bool) -> (r: Vec<Id>)
    requires
        dag.wf(),
        dag.edges_closed(),
        dag.steppable(*a),
    ensures
        r@.no_duplicates(),
        r@.to_set() == reached(*dag, fwd, *a),
        forall|i: int| 0 <= i < r@.len() ==> usable(*dag, #[trigger] r@[i]),
{
    let ghost g = *dag;
    let first = step_ids(dag, a, fwd);
    let mut seen: Vec<Id> = Vec::new();
    union_ids(dag, &mut seen, &first);
    proof {
        lemma_first_level(g, fwd, *a, first@);
        assert(seen@.to_set() =~= first@.to_set());
        assert forall|i: int| 0 <= i < seen@.len() implies usable(*dag, #[trigger] seen@[i]) by {
            assert(seen@.to_set().contains(seen@[i]));
            assert(first@.contains(seen@[i]));
            if fwd {
                dag.lemma_edge_ends(*a, seen@[i]);
            } else {
                dag.lemma_edge_ends(seen@[i], *a);
            }
        }
        assert forall|y: Id| seen@.to_set().contains(y) implies reached(g, fwd, *a).contains(y) by {
            assert(level(g, fwd, *a, 1).contains(y));
        }
        lemma_nodes_fit(g, seen@);
    }
    let mut next: usize = 0;
    while next < seen.len()
        invariant
            g == *dag,
            dag.wf(),
            dag.edges_closed(),
            seen@.no_duplicates(),
            next <= seen@.len(),
            seen@.len() <= dag.node_count(),
            forall|i: int| 0 <= i < seen@.len() ==> usable(*dag, #[trigger] seen@[i]),
            level(g, fwd, *a, 1).subset_of(seen@.to_set()),
            seen@.to_set().subset_of(reached(g, fwd, *a)),
            forall|i: int, y: Id| 0 <= i < next && #[trigger] linked(g, fwd, seen@[i], y) ==> seen@.contains(y),
        decreases dag.node_count() - next,
    {
        let x = seen[next];
        assert(usable(*dag, seen@[next as int]));
        let succ = step_ids(dag, &x, fwd);
        let ghost before = seen@;
        union_ids(dag, &mut seen, &succ);
        proof {
            assert(before.to_set().contains(x));
            assert forall|y: Id| succ@.contains(y) implies usable(*dag, y) && reached(g, fwd, *a).contains(y) by {
                if fwd {
                    dag.lemma_edge_ends(x, y);
                } else {
                    dag.lemma_edge_ends(y, x);
                }
                lemma_reached_step(g, fwd, *a, x, y);
            }
            assert forall|i: int| 0 <= i < seen@.len() implies usable(*dag, #[trigger] seen@[i]) by {
                if i < before.len() {
                    assert(seen@[i] == before[i]);
                } else {
                    assert(seen@.to_set().contains(seen@[i]));
                    if !succ@.to_set().contains(seen@[i]) {
                        let k = choose|k: int| 0 <= k < before.len() && before[k] == seen@[i];
                        assert(seen@[k] == before[k]);
                    }
                }
            }
            assert forall|y: Id| seen@.to_set().contains(y) implies reached(g, fwd, *a).contains(y) by {
                if !succ@.to_set().contains(y) {
                    assert(before.to_set().contains(y));
                }
            }
            assert forall|i: int, y: Id| 0 <= i < next + 1 && #[trigger] linked(g, fwd, seen@[i], y) implies seen@.contains(y) by {
                assert(seen@[i] == before[i]);
                if i < next {
                    assert(before.contains(y));
                    let k = choose|k: int| 0 <= k < before.len() && before[k] == y;
                    assert(seen@[k] == y);
                } else {
                    assert(succ@.contains(y));
                    assert(seen@.to_set().contains(y));
                }
            }
            lemma_nodes_fit(g, seen@);
        }
        next = next + 1;
    }
    proof {
        let st = seen@.to_set();
        assert forall|x: Id, y: Id| #[trigger] st.contains(x) && #[trigger] linked(g, fwd, x, y) implies st.contains(y) by {
            let i = choose|i: int| 0 <= i < seen@.len() && seen@[i] == x;
            assert(linked(g, fwd, seen@[i], y));
        }
        assert forall|y: Id| reached(g, fwd, *a).contains(y) implies st.contains(y) by {
            let j = choose|j: nat| 1 <= j && #[trigger] level(g, fwd, *a, j).contains(y);
            lemma_closed_holds_levels(g, fwd, *a, st, j);
        }
        assert(st =~= reached(g, fwd, *a));
    }
    seen
}

/// The nodes reached from both `a` and `b` in the direction `fwd`: their common ancestors
/// when following citations, their common descendants when going against them.
pub open spec fn common_set<W, Id: Copy, G: Dag<W, Id>>(g: G, fwd: bool, a: Id, b: Id) -> Set<Id> {
    reached(g, fwd, a).intersect(reached(g, fwd, b))
}

/// The common nodes that no common node reaches: the last common ancestors when following
/// citations, the earliest common descendants when going against them.
pub open spec fn frontmost<W, Id: Copy, G: Dag<W, Id>>(g: G, fwd: bool, a: Id, b: Id) -> Set<Id> {
    common_set(g, fwd, a, b).filter(
        |x: Id| forall|y: Id| #[trigger] common_set(g, fwd, a, b).contains(y) ==> !reached(g, fwd, y).contains(x),
    )
}

/// The common nodes of `a` and `b` that no common node reaches, each once.
fn front_search<W, Id: Copy, G: Dag<W, Id>>(dag: &G, a: &Id, b: &Id, fwd: bool) -> (r: Vec<Id>)
    requires
        dag.wf(),
        dag.edges_closed(),
        dag.steppable(*a),
        dag.steppable(*b),
    ensures
        r@.no_duplicates(),
        r@.to_set() == frontmost(*dag, fwd, *a, *b),
        forall|i: int| 0 <= i < r@.len() ==> dag.contains_node(#[trigger] r@[i]),
{
    let ghost g = *dag;
    let from_a = reach_ids(dag, a, fwd);
    let from_b = reach_ids(dag, b, fwd);
    let common = intersect_ids(dag, &from_a, &from_b);
    let ghost cs = common_set(g, fwd, *a, *b);
    assert(common@.to_set() == cs);
    assert forall|i: int| 0 <= i < common@.len() implies usable(*dag, #[trigger] common@[i]) by {
        assert(common@.to_set().contains(common@[i]));
        let k = choose|k: int| 0 <= k < from_a@.len() && from_a@[k] == common@[i];
        assert(usable(*dag, from_a@[k]));
    }
    let n = common.len();
    // beaten[i]: some common node reaches common[i].
    let mut beaten: Vec<bool> = Vec::new();
    let mut i: usize = 0;
    while i < n
        invariant
            n == common@.len(),
            i <= n,
            beaten@.len() == i,
            forall|k: int| 0 <= k < i ==> !beaten@[k],
        decreases n - i,
    {
        beaten.push(false);
        i = i + 1;
    }
    let mut j: usize = 0;
    while j < n
        invariant
            g == *dag,
            dag.wf(),
            dag.edges_closed(),
            n == common@.len(),
            j <= n,
            beaten@.len() == n,
            forall|k: int| 0 <= k < n ==> usable(*dag, #[trigger] common@[k]),
            forall|k: int|
                0 <= k < n ==> (#[trigger] beaten@[k] <==> exists|t: int|
                    0 <= t < j && reached(g, fwd, common@[t]).contains(common@[k])),
        decreases n - j,
    {
        assert(usable(*dag, common@[j as int]));
        let from_y = reach_ids(dag, &common[j], fwd);
        let ghost old_beaten = beaten@;
        let mut k: usize = 0;
        while k < n
            invariant
                n == common@.len(),
                j < n,
                k <= n,
                beaten@.len() == n,
                from_y@.to_set() == reached(g, fwd, common@[j as int]),
                old_beaten.len() == n,
                forall|t: int| 0 <= t < n ==> (#[trigger] beaten@[t] <==> (old_beaten[t] || (t < k
                    && reached(g, fwd, common@[j as int]).contains(common@[t])))),
            decreases n - k,
        {
            if contains_id(dag, &from_y, &common[k]) {
                beaten.set(k, true);
            }
            proof {
                assert(from_y@.contains(common@[k as int]) <==> from_y@.to_set().contains(common@[k as int]));
            }
            k = k + 1;
        }
        proof {
            assert forall|t: int| 0 <= t < n implies (#[trigger] beaten@[t] <==> exists|u: int|
                0 <= u < j + 1 && reached(g, fwd, common@[u]).contains(common@[t])) by {
                if old_beaten[t] {
                    let u = choose|u: int| 0 <= u < j && reached(g, fwd, common@[u]).contains(common@[t]);
                }
            }
        }
        j = j + 1;
    }
    let mut r: Vec<Id> = Vec::new();
    let mut i: usize = 0;
    while i < n
        invariant
            g == *dag,
            n == common@.len(),
            i <= n,
            beaten@.len() == n,
            common@.no_duplicates(),
            common@.to_set() == cs,
            cs == common_set(g, fwd, *a, *b),
            forall|k: int| 0 <= k < n ==> usable(*dag, #[trigger] common@[k]),
            forall|k: int|
                0 <= k < n ==> (#[trigger] beaten@[k] <==> exists|t: int|
                    0 <= t < n && reached(g, fwd, common@[t]).contains(common@[k])),
            r@.no_duplicates(),
            forall|k: int| 0 <= k < r@.len() ==> dag.contains_node(#[trigger] r@[k]),
            r@.to_set() == common@.take(i as int).to_set().filter(
                |x: Id| forall|y: Id| #[trigger] cs.contains(y) ==> !reached(g, fwd, y).contains(x),
            ),
        decreases n - i,
    {
        let x = common[i];
        let ghost keep = |x: Id| forall|y: Id| #[trigger] cs.contains(y) ==> !reached(g, fwd, y).contains(x);
        proof {
            lemma_take_next_to_set(common@, i as int);
            assert(keep(x) <==> !beaten@[i as int]) by {
                if !keep(x) {
                    let y = choose|y: Id| #[trigger] cs.contains(y) && reached(g, fwd, y).contains(x);
                    let t = choose|t: int| 0 <= t < n && common@[t] == y;
                    assert(reached(g, fwd, common@[t]).contains(common@[i as int]));
                }
                if beaten@[i as int] {
                    let t = choose|t: int| 0 <= t < n && reached(g, fwd, common@[t]).contains(common@[i as int]);
                    assert(cs.contains(common@[t]));
                }
            }
            assert(!common@.take(i as int).contains(x)) by {
                if common@.take(i as int).contains(x) {
                    let t = choose|t: int| 0 <= t < i && common@.take(i as int)[t] == x;
                    assert(common@[t] == common@[i as int]);
                }
            }
            assert(!r@.to_set().contains(x));
        }
        if !beaten[i] {
            proof {
                lemma_push_to_set(r@, x);
            }
            r.push(x);
        }
        proof {
            assert(r@.to_set() =~= common@.take(i + 1).to_set().filter(keep));
        }
        i = i + 1;
    }
    proof {
        assert(common@.take(n as int) =~= common@);
        assert(r@.to_set() =~= frontmost(g, fwd, *a, *b));
    }
    r
}

/// The last common ancestors of `a` and `b`: the papers that both cite, directly or through
/// other papers, and that no other such paper cites, directly or through others.
pub fn last_common_ancestor<'g, Id: Copy, G: Dag<Paper, Id>>(
    dag: &'g G,
    a: &Id,
    b: &Id,
) -> (r: Vec<&'g Paper>)
    requires
        dag.wf(),
        dag.edges_closed(),
        dag.steppable(*a),
        dag.steppable(*b),
    ensures
        exists|ids: Seq<Id>|
            {
                &&& ids.no_duplicates()
                &&& ids.to_set() == frontmost(*dag, true, *a, *b)
                &&& r@.len() == ids.len()
                &&& forall|i: int| 0 <= i < ids.len() ==> *r@[i] == dag.weight(#[trigger] ids[i])
            },
{
    let ids = front_search(dag, a, b, true);
    weights_of(dag, &ids)
}

/// The earliest common descendants of `a` and `b`: the papers that cite both, directly or
/// through other papers, and that cite no other such paper, directly or through others.
pub fn earliest_common_descendant<'g, Id: Copy, G: Dag<Paper, Id>>(
    dag: &'g G,
    a: &Id,
    b: &Id,
) -> (r: Vec<&'g Paper>)
    requires
        dag.wf(),
        dag.edges_closed(),
        dag.steppable(*a),
        dag.steppable(*b),
    ensures
        exists|ids: Seq<Id>|
            {
                &&& ids.no_duplicates()
                &&& ids.to_set() == frontmost(*dag, false, *a, *b)
                &&& r@.len() == ids.len()
                &&& forall|i: int| 0 <= i < ids.len() ==> *r@[i] == dag.weight(#[trigger] ids[i])
            },
{
    let ids = front_search(dag, a, b, false);
    weights_of(dag, &ids)
}


/// The weights of the nodes `ids`, in order.
pub(crate) fn weights_of<'g, W, Id: Copy, G: Dag<W, Id>>(dag: &'g G, ids: &Vec<Id>) -> (r: Vec<&'g W>)
    requires
        dag.wf(),
        forall|i: int| 0 <= i < ids@.len() ==> dag.contains_node(#[trigger] ids@[i]),
    ensures
        r@.len() == ids@.len(),
        forall|i: int| 0 <= i < ids@.len() ==> *r@[i] == dag.weight(#[trigger] ids@[i]),
{
    let mut r: Vec<&'g W> = Vec::new();
    let mut i: usize = 0;
    while i < ids.len()
        invariant
            dag.wf(),
            forall|i: int| 0 <= i < ids@.len() ==> dag.contains_node(#[trigger] ids@[i]),
            i <= ids@.len(),
            r@.len() == i,
            forall|j: int| 0 <= j < i ==> *r@[j] == dag.weight(#[trigger] ids@[j]),
        decreases ids@.len() - i,
    {
        assert(dag.contains_node(ids@[i as int]));
        let w = dag.index(&ids[i]);
        r.push(w);
        i = i + 1;
    }
    r
}

/// The paper whose identifier is `id`, among the nodes that the graph searches.
pub fn find_by_id<'g, Id: Copy, G: Dag<Paper, Id>>(dag: &'g G, id: &str) -> (r: Option<&'g Paper>)
    requires
        dag.wf(),
    ensures
        match r {
            Some(p) => p.id@ == id@ && exists|n: Id|
                {
                    &&& dag.searchable(n)
                    &&& dag.weight(n) == *p
                    &&& forall|m: Id|
                        dag.searchable(m) && #[trigger] dag.scanned_before(m, n) ==> dag.weight(m).id@
                            != id@
                },
            None => forall|n: Id| dag.searchable(n) ==> (#[trigger] dag.weight(n)).id@ != id@,
        },
{
    let key: String = id.to_owned();
    let has_key = |_n: &Id, w: &Paper| -> (m: bool)
        ensures
            m == (w.id@ == key@),
        { w.id == key };
    let found = dag.find_node(has_key);
    match found {
        Some(n) => {
            proof {
                dag.lemma_searchable_node(n);
                assert forall|m: Id| dag.searchable(m) && #[trigger] dag.scanned_before(m, n) implies dag.weight(
                    m,
                ).id@ != id@ by {
                    assert(call_ensures(has_key, (&m, &dag.weight(m)), false));
                }
            }
            Some(dag.index(&n))
        },
        None => None,
    }
}

/// No node reaches itself by following one or more citations.
pub open spec fn acyclic<W, Id: Copy, G: Dag<W, Id>>(g: G) -> bool {
    forall|x: Id, k: nat| 1 <= k ==> !#[trigger] level(g, true, x, k).contains(x)
}

/// Each node of `p` is linked to the next in the direction `fwd`.
pub open spec fn is_walk<W, Id: Copy, G: Dag<W, Id>>(g: G, fwd: bool, p: Seq<Id>) -> bool {
    forall|i: int| 0 <= i < p.len() - 1 ==> #[trigger] linked(g, fwd, p[i], p[i + 1])
}

/// A node reached in `k` steps ends a walk of `k` steps from the start.
pub(crate) proof fn lemma_level_walk<W, Id: Copy, G: Dag<W, Id>>(g: G, fwd: bool, a: Id, k: nat, c: Id) -> (p:
    Seq<Id>)
    requires
        level(g, fwd, a, k).contains(c),
    ensures
        p.len() == k + 1,
        p[0] == a,
        p[k as int] == c,
        is_walk(g, fwd, p),
    decreases k,
{
    if k == 0 {
        seq![a]
    } else {
        let x = choose|x: Id| #[trigger] level(g, fwd, a, (k - 1) as nat).contains(x) && linked(g, fwd, x, c);
        let q = lemma_level_walk(g, fwd, a, (k - 1) as nat, x);
        let p = q.push(c);
        assert forall|i: int| 0 <= i < p.len() - 1 implies #[trigger] linked(g, fwd, p[i], p[i + 1]) by {
            if i < k - 1 {
                assert(p[i] == q[i] && p[i + 1] == q[i + 1]);
                assert(linked(g, fwd, q[i], q[i + 1]));
            }
        }
        p
    }
}

/// Along a walk, a later node is reached from an earlier one in as many steps as lie
/// between them.
pub(crate) proof fn lemma_walk_level<W, Id: Copy, G: Dag<W, Id>>(g: G, fwd: bool, p: Seq<Id>, i: int, j: int)
    requires
        is_walk(g, fwd, p),
        0 <= i <= j < p.len(),
    ensures
        level(g, fwd, p[i], (j - i) as nat).contains(p[j]),
    decreases j - i,
{
    if j > i {
        lemma_walk_level(g, fwd, p, i, j - 1);
        let i0 = j - 1;
        assert(linked(g, fwd, p[i0], p[i0 + 1]));
        assert(p[i0 + 1] == p[j]);
        assert(level(g, fwd, p[i], (j - 1 - i) as nat).contains(p[j - 1]));
        assert(((j - i) - 1) as nat == (j - 1 - i) as nat);
    }
}

/// A walk against the citations, read backwards, follows them.
proof fn lemma_walk_reverse<W, Id: Copy, G: Dag<W, Id>>(g: G, p: Seq<Id>)
    requires
        is_walk(g, false, p),
    ensures
        is_walk(g, true, p.reverse()),
{
    let r = p.reverse();
    assert forall|i: int| 0 <= i < r.len() - 1 implies #[trigger] linked(g, true, r[i], r[i + 1]) by {
        let j = p.len() - 2 - i;
        assert(linked(g, false, p[j], p[j + 1]));
        assert(r[i] == p[j + 1] && r[i + 1] == p[j]);
    }
}

/// In an acyclic graph no walk of `g.node_count()` or more steps exists: levels beyond the
/// node count are empty.
pub proof fn lemma_acyclic_levels_end<W, Id: Copy, G: Dag<W, Id>>(g: G, fwd: bool, a: Id, k: nat)
    requires
        g.wf(),
        g.edges_closed(),
        acyclic(g),
        k > g.node_count(),
    ensures
        level(g, fwd, a, k).is_empty(),
{
    if !level(g, fwd, a, k).is_empty() {
        let c = level(g, fwd, a, k).choose();
        let p = lemma_level_walk(g, fwd, a, k, c);
        let n = g.node_count();
        assert forall|i: int| 0 <= i < k implies g.contains_node(#[trigger] p[i + 1]) by {
            assert(linked(g, fwd, p[i], p[i + 1]));
            if fwd {
                g.lemma_edge_ends(p[i], p[i + 1]);
            } else {
                g.lemma_edge_ends(p[i + 1], p[i]);
            }
        }
        let q = Seq::new(k, |i: int| g.node_index(p[i + 1]) as int);
        assert(q.to_set().subset_of(set_int_range(0, n as int))) by {
            assert forall|x: int| q.to_set().contains(x) implies set_int_range(0, n as int).contains(x) by {
                let i = choose|i: int| 0 <= i < q.len() && q[i] == x;
                assert(g.contains_node(p[i + 1]));
                g.lemma_node_index(p[i + 1], p[i + 1]);
            }
        }
        lemma_int_range(0, n as int);
        lemma_len_subset(q.to_set(), set_int_range(0, n as int));
        if q.no_duplicates() {
            q.unique_seq_to_set();
            assert(false);
        }
        let (i, j) = choose|i: int, j: int| 0 <= i < q.len() && 0 <= j < q.len() && i != j && q[i] == q[j];
        let (lo, hi) = if i < j {
            (i, j)
        } else {
            (j, i)
        };
        assert(g.contains_node(p[lo + 1]) && g.contains_node(p[hi + 1]));
        g.lemma_node_index(p[lo + 1], p[hi + 1]);
        assert(p[lo + 1] == p[hi + 1]);
        if fwd {
            lemma_walk_level(g, true, p, lo + 1, hi + 1);
            assert(level(g, true, p[lo + 1], (hi - lo) as nat).contains(p[lo + 1]));
        } else {
            lemma_walk_reverse(g, p);
            let r = p.reverse();
            let m = p.len() - 1;
            assert(r[m - (hi + 1)] == p[hi + 1] && r[m - (lo + 1)] == p[lo + 1]);
            lemma_walk_level(g, true, r, m - (hi + 1), m - (lo + 1));
            assert(level(g, true, r[m - (hi + 1)], (hi - lo) as nat).contains(r[m - (hi + 1)]));
        }
    }
}



/// Every node that the search returns is a common node of both starts, and no common node
/// reaches it: for ancestors, no other common ancestor is more recent; for descendants, it
/// cites no other common descendant.
pub proof fn lemma_frontmost_common<W, Id: Copy, G: Dag<W, Id>>(g: G, fwd: bool, a: Id, b: Id, x: Id)
    requires
        frontmost(g, fwd, a, b).contains(x),
    ensures
        reached(g, fwd, a).contains(x),
        reached(g, fwd, b).contains(x),
        forall|y: Id| #[trigger] common_set(g, fwd, a, b).contains(y) ==> !reached(g, fwd, y).contains(x),
{
}

/// The search returns exactly the nodes reached from both starts that no node reached from
/// both starts reaches: every such node is returned (none is left out), and nothing else is.
pub proof fn lemma_frontmost_exact<W, Id: Copy, G: Dag<W, Id>>(g: G, fwd: bool, a: Id, b: Id, x: Id)
    ensures
        frontmost(g, fwd, a, b).contains(x) <==> {
            &&& reached(g, fwd, a).contains(x)
            &&& reached(g, fwd, b).contains(x)
            &&& forall|y: Id|
                reached(g, fwd, a).contains(y) && reached(g, fwd, b).contains(y)
                    ==> !#[trigger] reached(g, fwd, y).contains(x)
        },
{
    let cs = common_set(g, fwd, a, b);
    if frontmost(g, fwd, a, b).contains(x) {
        assert forall|y: Id|
            reached(g, fwd, a).contains(y) && reached(g, fwd, b).contains(y) implies !#[trigger] reached(
            g,
            fwd,
            y,
        ).contains(x) by {
            assert(cs.contains(y));
        }
    }
    if reached(g, fwd, a).contains(x) && reached(g, fwd, b).contains(x) && forall|y: Id|
        reached(g, fwd, a).contains(y) && reached(g, fwd, b).contains(y) ==> !#[trigger] reached(
            g,
            fwd,
            y,
        ).contains(x) {
        assert forall|y: Id| #[trigger] cs.contains(y) implies !reached(g, fwd, y).contains(x) by {
            assert(reached(g, fwd, a).contains(y) && reached(g, fwd, b).contains(y));
        }
        assert(cs.contains(x));
    }
}

/// The search gives the same nodes whichever of the two starts comes first.
pub proof fn lemma_frontmost_symmetric<W, Id: Copy, G: Dag<W, Id>>(g: G, fwd: bool, a: Id, b: Id)
    ensures
        frontmost(g, fwd, a, b) == frontmost(g, fwd, b, a),
{
    assert(common_set(g, fwd, a, b) =~= common_set(g, fwd, b, a));
    assert(frontmost(g, fwd, a, b) =~= frontmost(g, fwd, b, a));
}

/// Steps add up: a node `j` steps past one that is `i` steps from `x` is `i + j` steps from
/// `x`.
pub(crate) proof fn lemma_levels_add<W, Id: Copy, G: Dag<W, Id>>(g: G, fwd: bool, x: Id, i: nat, y: Id, j: nat, z: Id)
    requires
        level(g, fwd, x, i).contains(y),
        level(g, fwd, y, j).contains(z),
    ensures
        level(g, fwd, x, i + j).contains(z),
{
    let p = lemma_level_walk(g, fwd, x, i, y);
    let q = lemma_level_walk(g, fwd, y, j, z);
    let w = p + q.skip(1);
    assert(w.len() == i + j + 1);
    assert forall|t: int| 0 <= t < w.len() - 1 implies #[trigger] linked(g, fwd, w[t], w[t + 1]) by {
        if t < i {
            assert(w[t] == p[t] && w[t + 1] == p[t + 1]);
            assert(linked(g, fwd, p[t], p[t + 1]));
        } else {
            let u = t - i;
            assert(w[t] == q[u]) by {
                if t == i {
                    assert(w[t] == p[i as int]);
                } else {
                    assert(w[t] == q.skip(1)[t - (i + 1)]);
                }
            }
            assert(w[t + 1] == q[u + 1]);
            assert(linked(g, fwd, q[u], q[u + 1]));
        }
    }
    lemma_walk_level(g, fwd, w, 0, (i + j) as int);
    assert(w[0] == x);
    assert(w[(i + j) as int] == z) by {
        if j == 0 {
            assert(w[(i + j) as int] == p[i as int]);
            assert(level(g, fwd, y, 0) == set![y]);
        } else {
            assert(w[(i + j) as int] == q.skip(1)[(j - 1) as int]);
        }
    }
}

/// Some node of `c` reaches `x`.
pub open spec fn reached_from_set<W, Id: Copy, G: Dag<W, Id>>(g: G, fwd: bool, c: Set<Id>, x: Id) -> bool {
    exists|y: Id| c.contains(y) && #[trigger] reached(g, fwd, y).contains(x)
}

/// If every node of `c` is reached from a node of `c`, then for every depth some node of `c`
/// is reached from a node of `c` by a walk at least that long.
#[verifier::spinoff_prover]
#[verifier::rlimit(40)]
proof fn lemma_dominated_chain<W, Id: Copy, G: Dag<W, Id>>(g: G, fwd: bool, c: Set<Id>, m: nat) -> (r: (
    Id,
    Id,
    nat,
))
    requires
        !c.is_empty(),
        forall|x: Id| #[trigger] c.contains(x) ==> reached_from_set(g, fwd, c, x),
    ensures
        c.contains(r.1),
        r.2 >= m,
        level(g, fwd, r.1, r.2).contains(r.0),
    decreases m,
{
    if m == 0 {
        let x = c.choose();
        assert(level(g, fwd, x, 0).contains(x));
        (x, x, 0)
    } else {
        let (x, z, l) = lemma_dominated_chain(g, fwd, c, (m - 1) as nat);
        assert(reached_from_set(g, fwd, c, z));
        let y = choose|y: Id| c.contains(y) && #[trigger] reached(g, fwd, y).contains(z);
        let j = choose|j: nat| 1 <= j && #[trigger] level(g, fwd, y, j).contains(z);
        lemma_levels_add(g, fwd, y, j, z, l, x);
        (x, y, j + l)
    }
}

/// In an acyclic graph the search returns nothing exactly when the two starts have no
/// common node: no common ancestor, or no common descendant.
pub proof fn lemma_frontmost_nonempty<W, Id: Copy, G: Dag<W, Id>>(g: G, fwd: bool, a: Id, b: Id)
    requires
        g.wf(),
        g.edges_closed(),
        acyclic(g),
    ensures
        frontmost(g, fwd, a, b).is_empty() <==> common_set(g, fwd, a, b).is_empty(),
{
    let cs = common_set(g, fwd, a, b);
    let fm = frontmost(g, fwd, a, b);
    if !cs.is_empty() && fm.is_empty() {
        assert forall|x: Id| #[trigger] cs.contains(x) implies reached_from_set(g, fwd, cs, x) by {
            assert(!fm.contains(x));
        }
        let (x, z, l) = lemma_dominated_chain(g, fwd, cs, g.node_count() + 1);
        lemma_acyclic_levels_end(g, fwd, z, l);
    }
    if fm.is_empty() && !cs.is_empty() {
    } else if !fm.is_empty() {
        let x = fm.choose();
        assert(cs.contains(x));
    }
}

} // verus!

